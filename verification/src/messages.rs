//! Where the messages of failed commands come from.

use vstd::prelude::*;

use crate::commands::{
    adjacent_command, asked_direction, cli_command, command_run, date_asked, ensure_command, entry_imported, import_date, import_path, import_run, import_step,
    list_command, open_command, plain_command, state_command, ProgressView,
};
use crate::daily_logic::{adjacent_path, date_of_path, paths_of, scoped, ConfigView};
use crate::date::{year_text, CalendarDate};
use crate::entries::{
    contents_added, entry_created, entry_ensured, entry_linked, entry_written, first_existing,
    index_ensured, indexes_ensured, indexes_linked, markdown_asked, markdown_written, month_title,
    parent_set, root_linked, template_found, StateView,
};
use crate::frontmatter::{markdown_reading, markdown_text, Field};
use crate::json::JsonView;
use crate::listing::{contents_asked, days_found, first_of_year, month_index_found, tree_days};
use crate::plugin::{command_names, law_unknown_command};
use crate::session::{
    exists_asked, now_asked, read_asked, save_asked, write_asked, Answer, Outcome, Talk,
};
use crate::workspace::{root_rel_candidates, workspace_rel};

verus! {

/// Whether a message starts like that of an unknown command.
pub open spec fn says_unknown(message: Seq<char>) -> bool {
    "Unknown command: "@.is_prefix_of(message)
}

/// The error that a reply holds.
pub open spec fn error_of(answer: Answer) -> Option<Seq<char>> {
    match answer {
        Answer::Exists(Err(e)) => Some(e),
        Answer::Content(Err(e)) => Some(e),
        Answer::Done(Err(e)) => Some(e),
        Answer::Files(Err(e)) => Some(e),
        _ => None,
    }
}

/// Whether a message is not the plugin's own: the host replied with it, or it is
/// that of frontmatter which could not be read or written.
pub open spec fn from_outside(replies: Seq<Answer>, message: Seq<char>) -> bool {
    ||| exists|i: int|
        0 <= i < replies.len() && #[trigger] error_of(replies[i]) == Some(message)
    ||| exists|content: Seq<char>|
        #[trigger] markdown_reading(content) == Err::<
            (Seq<(Seq<char>, Field)>, Seq<char>),
            Seq<char>,
        >(message)
    ||| exists|fields: Seq<(Seq<char>, Field)>, body: Seq<char>|
        #[trigger] markdown_text(fields, body) == Err::<Seq<char>, Seq<char>>(message)
}

/// Whether an operation keeps to the replies, and fails like an unknown command
/// only with a message from outside.
pub open spec fn accounted<T>(replies: Seq<Answer>, run: (Talk, Outcome<T>)) -> bool {
    &&& run.0.replies == replies
    &&& run.1 matches Outcome::Failed(m) ==> says_unknown(m) ==> from_outside(replies, m)
}

/// A message that starts with another letter is not that of an unknown command.
proof fn lemma_other_start(m: Seq<char>)
    requires
        m.len() > 0,
        m[0] != 'U',
    ensures
        !says_unknown(m),
{
    reveal_strlit("Unknown command: ");
    if says_unknown(m) {
        assert(m.subrange(0, "Unknown command: "@.len() as int)[0] == "Unknown command: "@[0]);
    }
}

proof fn lemma_requests(s: Talk)
    ensures
        forall|path: Seq<char>| accounted(s.replies, #[trigger] exists_asked(s, path)),
        forall|path: Seq<char>| accounted(s.replies, #[trigger] read_asked(s, path)),
        forall|path: Seq<char>, text: Seq<char>|
            accounted(s.replies, #[trigger] write_asked(s, path, text)),
        forall|key: Seq<char>, config: ConfigView|
            accounted(s.replies, #[trigger] save_asked(s, key, config)),
        accounted(s.replies, now_asked(s)),
{
    reveal_strlit("Unknown command: ");
    reveal_strlit("failed to parse host_get_now response: ");
    if let Some(a) = s.reply() {
        assert(error_of(s.replies[s.asked.len() as int]) == error_of(a));
    }
    assert forall|e: Seq<char>| !says_unknown(
        #[trigger] ("failed to parse host_get_now response: "@ + e),
    ) by {
        lemma_other_start("failed to parse host_get_now response: "@ + e);
    }
}

proof fn lemma_markdown(s: Talk)
    ensures
        forall|path: Seq<char>| accounted(s.replies, #[trigger] markdown_asked(s, path)),
        forall|path: Seq<char>, fields: Seq<(Seq<char>, Field)>, body: Seq<char>|
            accounted(s.replies, #[trigger] markdown_written(s, path, fields, body)),
{
    lemma_requests(s);
}

proof fn lemma_first_existing(s: Talk, st: StateView, candidates: Seq<Seq<char>>)
    ensures
        accounted(s.replies, first_existing(s, st, candidates)),
    decreases candidates.len(),
{
    lemma_requests(s);
    if candidates.len() > 0 {
        let (s1, _) = exists_asked(s, st.at(candidates[0]));
        lemma_first_existing(s1, st, candidates.drop_first());
    }
}

proof fn lemma_index_ensured(
    s: Talk,
    st: StateView,
    rel: Seq<char>,
    title: Seq<char>,
    description: Option<Seq<char>>,
    parent: Option<Seq<char>>,
)
    ensures
        accounted(s.replies, index_ensured(s, st, rel, title, description, parent)),
{
    let (s1, _) = exists_asked(s, st.at(rel));
    let (s2, _) = markdown_asked(s1, st.at(rel));
    lemma_requests(s);
    lemma_markdown(s1);
    lemma_markdown(s2);
}

proof fn lemma_contents_added(s: Talk, st: StateView, index: Seq<char>, child: Seq<char>)
    ensures
        accounted(s.replies, contents_added(s, st, index, child)),
{
    let (s1, _) = markdown_asked(s, st.at(index));
    lemma_markdown(s);
    lemma_markdown(s1);
}

proof fn lemma_parent_set(s: Talk, st: StateView, child: Seq<char>, parent: Seq<char>)
    ensures
        accounted(s.replies, parent_set(s, st, child, parent)),
{
    let (s1, _) = markdown_asked(s, st.at(child));
    lemma_markdown(s);
    lemma_markdown(s1);
}

proof fn lemma_indexes_ensured(
    s: Talk,
    st: StateView,
    date: CalendarDate,
    root_index: Option<Seq<char>>,
)
    ensures
        accounted(s.replies, indexes_ensured(s, st, date, root_index)),
{
    let paths = paths_of(st.folder(), date);
    let (d, y, m) = (paths.daily_index, paths.year_index, paths.month_index);
    let about = Some("Date-based daily entry hierarchy"@);
    let year = year_text(date.year as int);
    let (s1, _) = index_ensured(s, st, d, "Daily Index"@, about, root_index);
    let (s2, _) = index_ensured(s1, st, y, year, None, Some(d));
    lemma_index_ensured(s, st, d, "Daily Index"@, about, root_index);
    lemma_index_ensured(s1, st, y, year, None, Some(d));
    lemma_index_ensured(s2, st, m, month_title(date), None, Some(y));
}

proof fn lemma_indexes_linked(
    s: Talk,
    st: StateView,
    date: CalendarDate,
    root_index: Option<Seq<char>>,
)
    ensures
        accounted(s.replies, indexes_linked(s, st, date, root_index)),
{
    let paths = paths_of(st.folder(), date);
    let (d, y, m) = (paths.daily_index, paths.year_index, paths.month_index);
    if root_index is Some {
        lemma_contents_added(s, st, root_index->0, d);
    }
    let (s1, _) = root_linked(s, st, d, root_index);
    let (s2, _) = contents_added(s1, st, d, y);
    lemma_contents_added(s1, st, d, y);
    lemma_contents_added(s2, st, y, m);
}

proof fn lemma_entry_created(s: Talk, st: StateView, date: CalendarDate)
    ensures
        accounted(s.replies, entry_created(s, st, date)),
{
    let (s1, _) = exists_asked(s, st.at(paths_of(st.folder(), date).entry));
    let (s2, _) = template_found(s1, st);
    let (s3, _) = now_asked(s2);
    lemma_requests(s);
    lemma_requests(s1);
    assert(accounted(s1.replies, template_found(s1, st)));
    lemma_requests(s2);
    lemma_requests(s3);
    assert(accounted(s1.replies, entry_written(s1, st, date)));
}

proof fn lemma_entry_linked(s: Talk, st: StateView, date: CalendarDate)
    ensures
        accounted(s.replies, entry_linked(s, st, date)),
{
    let paths = paths_of(st.folder(), date);
    let (s1, _) = parent_set(s, st, paths.entry, paths.month_index);
    lemma_parent_set(s, st, paths.entry, paths.month_index);
    lemma_contents_added(s1, st, paths.month_index, paths.entry);
}

proof fn lemma_entry_ensured(s: Talk, st: StateView, date: CalendarDate)
    ensures
        accounted(s.replies, entry_ensured(s, st, date)),
{
    let (s1, o1) = first_existing(s, st, root_rel_candidates(st.root));
    lemma_first_existing(s, st, root_rel_candidates(st.root));
    if let Outcome::Got(root_index) = o1 {
        let (s2, _) = indexes_ensured(s1, st, date, root_index);
        let (s3, _) = indexes_linked(s2, st, date, root_index);
        let (s4, _) = entry_created(s3, st, date);
        lemma_indexes_ensured(s1, st, date, root_index);
        lemma_indexes_linked(s2, st, date, root_index);
        lemma_entry_created(s3, st, date);
        lemma_entry_linked(s4, st, date);
    }
}

proof fn lemma_own_messages()
    ensures
        forall|t: Seq<char>| !says_unknown(#[trigger] ("Invalid date format: "@ + t)),
        forall|t: Seq<char>| !says_unknown(#[trigger] ("Unknown component id: "@ + t)),
        !says_unknown("Path is not a daily entry path"@),
        !says_unknown("GetAdjacentDailyEntry requires `path`"@),
        !says_unknown("GetEntryState requires `path`"@),
        !says_unknown("month must be 1-12"@),
        !says_unknown("ListDailyEntryDates requires `month`"@),
        !says_unknown("ListDailyEntryDates requires `year`"@),
{
    reveal_strlit("Unknown command: ");
    reveal_strlit("Invalid date format: ");
    reveal_strlit("Unknown component id: ");
    reveal_strlit("Path is not a daily entry path");
    reveal_strlit("GetAdjacentDailyEntry requires `path`");
    reveal_strlit("GetEntryState requires `path`");
    reveal_strlit("month must be 1-12");
    reveal_strlit("ListDailyEntryDates requires `month`");
    reveal_strlit("ListDailyEntryDates requires `year`");
    assert forall|t: Seq<char>| !says_unknown(#[trigger] ("Invalid date format: "@ + t)) by {
        lemma_other_start("Invalid date format: "@ + t);
    }
    lemma_other_start("Path is not a daily entry path"@);
    lemma_other_start("GetAdjacentDailyEntry requires `path`"@);
    lemma_other_start("GetEntryState requires `path`"@);
    lemma_other_start("month must be 1-12"@);
    lemma_other_start("ListDailyEntryDates requires `month`"@);
    lemma_other_start("ListDailyEntryDates requires `year`"@);
    assert forall|t: Seq<char>| !says_unknown(#[trigger] ("Unknown component id: "@ + t)) by {
        let m = "Unknown component id: "@ + t;
        assert(m[11] == 'p');
        if says_unknown(m) {
            assert(m.subrange(0, 17)[11] == "Unknown command: "@[11]);
        }
    }
}

#[verifier::rlimit(40)]
proof fn lemma_plain_command(
    s: Talk,
    st: StateView,
    command: Seq<char>,
    params: JsonView,
    panel: Seq<char>,
)
    requires
        command_names().contains(command),
        command != "ImportEntriesToDaily"@,
        command != "UpdateConfig"@,
    ensures
        accounted(s.replies, plain_command(s, st, command, params, panel)),
{
    let names = command_names();
    let i = names.index_of(command);
    assert(names[i] == command);
    if command == "EnsureDailyEntry"@ {
        lemma_dated_commands(s, st, params);
    } else if command == "GetAdjacentDailyEntry"@ {
        lemma_adjacent_command(s, st, params);
    } else if command == "GetEntryState"@ {
        lemma_state_command(s, st, params);
    } else if command == "OpenToday"@ || command == "OpenYesterday"@ {
        lemma_open_command(s, st);
    } else if command == "CliDaily"@ {
        lemma_dated_commands(s, st, params);
    } else if command == "ListDailyEntryDates"@ {
        lemma_list_command(s, st, params);
    } else {
        assert(command == "get_component_html"@);
        lemma_own_messages();
    }
}

proof fn lemma_state_command(s: Talk, st: StateView, params: JsonView)
    ensures
        accounted(s.replies, state_command(s, st, params)),
{
    lemma_own_messages();
    lemma_requests(s);
}

proof fn lemma_dated_commands(s: Talk, st: StateView, params: JsonView)
    ensures
        accounted(s.replies, ensure_command(s, st, params)),
        accounted(s.replies, cli_command(s, st, params)),
{
    lemma_own_messages();
    lemma_requests(s);
    let (s1, o1) = date_asked(s, params.text_field("date"@));
    assert(accounted(s.replies, date_asked(s, params.text_field("date"@))));
    if let Outcome::Got(date) = o1 {
        lemma_entry_ensured(s1, st, date);
        let (s2, _) = entry_ensured(s1, st, date);
        lemma_requests(s2);
    }
}

proof fn lemma_adjacent_command(s: Talk, st: StateView, params: JsonView)
    ensures
        accounted(s.replies, adjacent_command(s, st, params)),
{
    lemma_own_messages();
    if let Some(path) = params.text_field("path"@) {
        if let Some(adjacent) = adjacent_path(workspace_rel(path, st.root), asked_direction(params)) {
            if let Some(date) = date_of_path(adjacent) {
                lemma_entry_ensured(s, st, date);
            }
        }
    }
}

proof fn lemma_open_command(s: Talk, st: StateView)
    ensures
        accounted(s.replies, open_command(s, st, false)),
        accounted(s.replies, open_command(s, st, true)),
{
    lemma_requests(s);
    let (s1, o1) = now_asked(s);
    if let Outcome::Got(now) = o1 {
        lemma_entry_ensured(s1, st, now.date);
        lemma_entry_ensured(s1, st, now.date.previous());
    }
}

proof fn lemma_list_command(s: Talk, st: StateView, params: JsonView)
    ensures
        accounted(s.replies, list_command(s, st, params)),
{
    lemma_own_messages();
    if let (Some(y), Some(m)) = (params.int_field("year"@), params.int_field("month"@)) {
        let (year, month) = (y as i64 as i32 as int, m as i64 as u32 as nat);
        let daily_index = scoped(st.folder(), "daily_index.md"@);
        let (s1, o1) = contents_asked(s, st.at(daily_index));
        lemma_markdown(s);
        if let Outcome::Got(contents) = o1 {
            if let Some(year_index) = first_of_year(contents, daily_index, year) {
                lemma_markdown(s1);
            }
        }
        let (t, o) = month_index_found(s, st, year, month);
        assert(t.replies == s.replies);
        lemma_markdown(t);
        assert(tree_days(s, st, year, month).0.replies == s.replies);
        assert(tree_days(s, st, year, month).1 !is Failed);
        assert(days_found(s, st, year, month).0.replies == s.replies);
        assert(days_found(s, st, year, month).1 !is Failed);
    }
}

proof fn lemma_import_step(p: ProgressView, st: StateView, entry: JsonView, dry_run: bool)
    ensures
        ({
            let (q, o) = import_step(p, st, entry, dry_run);
            &&& o matches Outcome::Failed(m) ==> says_unknown(m) ==> from_outside(
                p.talk.replies,
                m,
            )
            &&& o is Got ==> q.talk.replies.len() == 0
        }),
{
    let s = p.talk.fresh();
    lemma_requests(s);
    assert(entry_imported(s, st, entry, dry_run).1 matches Outcome::Failed(m) ==> import_date(
        s,
        st,
        entry,
        workspace_rel(import_path(entry), st.root),
    ).1 == Outcome::<Result<CalendarDate, Seq<char>>>::Failed(m));
}

proof fn lemma_import_run(p: ProgressView, st: StateView, entries: Seq<JsonView>, dry_run: bool)
    ensures
        import_run(p, st, entries, dry_run).1 matches Outcome::Failed(m) ==> says_unknown(m)
            ==> from_outside(p.talk.replies, m),
    decreases entries.len() - p.next,
{
    if p.next < entries.len() {
        let (q, o) = import_step(p, st, entries[p.next as int], dry_run);
        lemma_import_step(p, st, entries[p.next as int], dry_run);
        if o is Got {
            lemma_import_run(q, st, entries, dry_run);
        }
    }
}

/// A command fails with the message of an unknown command just when the plugin
/// does not name it, unless that very text came from outside: as an error of the
/// host, or of frontmatter that could not be read or written.
pub proof fn law_named_command(
    p: ProgressView,
    st: StateView,
    command: Seq<char>,
    params: JsonView,
    panel: Seq<char>,
)
    ensures
        ({
            let o = command_run(p, st, command, params, panel).1;
            let m = "Unknown command: "@ + command;
            &&& !command_names().contains(command) ==> o == Outcome::<(JsonView, StateView)>::Failed(
                m,
            )
            &&& command_names().contains(command) && !from_outside(p.talk.replies, m) ==> o
                != Outcome::<(JsonView, StateView)>::Failed(m)
        }),
{
    let m = "Unknown command: "@ + command;
    assert(m.subrange(0, "Unknown command: "@.len() as int) =~= "Unknown command: "@);
    assert(says_unknown(m));
    if !command_names().contains(command) {
        law_unknown_command(p, st, command, params, panel);
    } else if command == "ImportEntriesToDaily"@ {
        lemma_import_run(
            p,
            st,
            params.list_field("entries"@),
            params.bool_field("dry_run"@) == Some(true),
        );
    } else if command == "UpdateConfig"@ {
        lemma_requests(p.talk.fresh());
    } else {
        lemma_plain_command(p.talk.fresh(), st, command, params, panel);
    }
}

} // verus!
