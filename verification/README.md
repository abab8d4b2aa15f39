# diaryx_daily

Daily entries for a Diaryx workspace: where the entry of a date stands, how it
and the index files above it are made and linked, and the commands of the plugin
that offers this to the Diaryx host.

- `src/` is the library, verified with Verus.
  - `text`, `paths`, `date`, `english`, `json`: the values that the rest works on.
  - `daily_logic`, `workspace`, `frontmatter`, `permissions`: the rules.
  - `session`: requests to the host. An operation runs on the replies so far, and
    stops at the first request without one.
  - `entries`, `listing`, `settings`, `commands`, `plugin`: the operations.
  - `files`, `replay`, `messages`: what the operations do to the files of a workspace,
    what it means to run them again with one reply more, and where their messages
    come from.
- `tests/` runs the library, with a host that holds its files in memory.
- `app/` is the Extism guest: its exports, and the calls of the host.
