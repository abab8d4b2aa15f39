//! Why operations fail or wait: only for what the host replied, or did not reply yet, and
//! for frontmatter that cannot be read or written.

use vstd::prelude::*;

use crate::commands::{
    adjacent_command, asked_direction, cli_command, command_run, date_asked, ensure_command,
    entry_imported, import_date, list_command, open_command, plain_command, state_command, ImportView,
    ProgressView,
};
use crate::daily_logic::{adjacent_path, date_of_path, input_text, paths_of, scoped, ConfigView};
use crate::date::{moment_reading, year_text, CalendarDate};
use crate::entries::{
    contents_added, date_inferred, entry_created, entry_ensured, entry_linked, entry_written,
    first_existing, index_ensured, indexes_ensured, indexes_linked, markdown_asked, markdown_written,
    month_title, parent_set, root_linked, template_found, StateView,
};
use crate::frontmatter::{markdown_reading, markdown_text, Field};
use crate::importing::gives_path;
use crate::json::JsonView;
use crate::listing::{contents_asked, days_found, first_of_year, month_index_found, tree_days};
use crate::messages::error_of;
use crate::plugin::command_names;
use crate::session::{
    exists_asked, files_asked, now_asked, read_asked, save_asked, write_asked, Answer, Ask, Outcome,
    Talk,
};
use crate::settings::{legacy_migrated, legacy_taken, migrated, taken_over};
use crate::text::trimmed;
use crate::workspace::{root_candidates, root_rel_candidates, workspace_rel};

verus! {

/// Whether a reply is one to this kind of request.
pub open spec fn answers(answer: Answer, ask: Ask) -> bool {
    match ask {
        Ask::Exists(_) => answer is Exists,
        Ask::Read(_) => answer is Content,
        Ask::Now => answer is Content,
        Ask::Write(_, _) => answer is Done,
        Ask::Save(_, _) => answer is Done,
        Ask::Files(_) => answer is Files,
        Ask::Load(_) => answer is Config,
    }
}

/// Whether the reply to the request `k` gives this message: it is an error with it, a
/// file whose frontmatter cannot be read, or a time that is no moment.
pub open spec fn gives_reason(t: Talk, k: int, message: Seq<char>) -> bool {
    ||| error_of(t.replies[k]) == Some(message)
    ||| t.asked[k] is Read && (t.replies[k] matches Answer::Content(Ok(text)) && markdown_reading(
        text,
    ) == Err::<(Seq<(Seq<char>, Field)>, Seq<char>), Seq<char>>(message))
    ||| t.asked[k] is Now && (t.replies[k] matches Answer::Content(Ok(raw)) && (moment_reading(
        trimmed(raw),
    ) matches Err(e) && message == "failed to parse host_get_now response: "@ + e))
}

/// Whether there is a reason for a message: the last reply, or frontmatter that cannot be
/// written.
pub open spec fn has_reason(t: Talk, message: Seq<char>) -> bool {
    ||| 0 < t.asked.len() <= t.replies.len() && gives_reason(t, t.asked.len() - 1, message)
    ||| exists|fields: Seq<(Seq<char>, Field)>, body: Seq<char>|
        #[trigger] markdown_text(fields, body) == Err::<Seq<char>, Seq<char>>(message)
}

/// Whether an operation keeps to its replies, fails only for a reason, and waits only where
/// the next reply is missing or of another kind.
pub open spec fn reasoned<T>(replies: Seq<Answer>, run: (Talk, Outcome<T>)) -> bool {
    &&& run.0.replies == replies
    &&& run.1 matches Outcome::Failed(message) ==> has_reason(run.0, message)
    &&& run.1 matches Outcome::Waiting(ask) ==> (run.0.reply() matches Some(answer) ==> !answers(
        answer,
        ask,
    ))
}

proof fn lemma_requests(s: Talk)
    ensures
        forall|path: Seq<char>| reasoned(s.replies, #[trigger] exists_asked(s, path)),
        forall|path: Seq<char>| reasoned(s.replies, #[trigger] read_asked(s, path)),
        forall|path: Seq<char>, text: Seq<char>|
            reasoned(s.replies, #[trigger] write_asked(s, path, text)),
        forall|key: Seq<char>, config: ConfigView|
            reasoned(s.replies, #[trigger] save_asked(s, key, config)),
        forall|path: Seq<char>| reasoned(s.replies, #[trigger] files_asked(s, path)),
        reasoned(s.replies, now_asked(s)),
{
}

proof fn lemma_markdown(s: Talk)
    ensures
        forall|path: Seq<char>| reasoned(s.replies, #[trigger] markdown_asked(s, path)),
        forall|path: Seq<char>, fields: Seq<(Seq<char>, Field)>, body: Seq<char>|
            reasoned(s.replies, #[trigger] markdown_written(s, path, fields, body)),
{
    lemma_requests(s);
}

proof fn lemma_first_existing(s: Talk, st: StateView, candidates: Seq<Seq<char>>)
    ensures
        reasoned(s.replies, first_existing(s, st, candidates)),
    decreases candidates.len(),
{
    lemma_requests(s);
    if candidates.len() > 0 {
        let (s1, _) = exists_asked(s, st.at(candidates[0]));
        lemma_first_existing(s1, st, candidates.drop_first());
    }
}

proof fn lemma_index_ensured(
    s: Talk,
    st: StateView,
    rel: Seq<char>,
    title: Seq<char>,
    description: Option<Seq<char>>,
    parent: Option<Seq<char>>,
)
    ensures
        reasoned(s.replies, index_ensured(s, st, rel, title, description, parent)),
{
    let (s1, _) = exists_asked(s, st.at(rel));
    let (s2, _) = markdown_asked(s1, st.at(rel));
    lemma_requests(s);
    lemma_markdown(s1);
    lemma_markdown(s2);
}

proof fn lemma_contents_added(s: Talk, st: StateView, index: Seq<char>, child: Seq<char>)
    ensures
        reasoned(s.replies, contents_added(s, st, index, child)),
{
    let (s1, _) = markdown_asked(s, st.at(index));
    lemma_markdown(s);
    lemma_markdown(s1);
}

proof fn lemma_parent_set(s: Talk, st: StateView, child: Seq<char>, parent: Seq<char>)
    ensures
        reasoned(s.replies, parent_set(s, st, child, parent)),
{
    let (s1, _) = markdown_asked(s, st.at(child));
    lemma_markdown(s);
    lemma_markdown(s1);
}

proof fn lemma_indexes_ensured(
    s: Talk,
    st: StateView,
    date: CalendarDate,
    root_index: Option<Seq<char>>,
)
    ensures
        reasoned(s.replies, indexes_ensured(s, st, date, root_index)),
{
    let paths = paths_of(st.folder(), date);
    let (d, y, m) = (paths.daily_index, paths.year_index, paths.month_index);
    let about = Some("Date-based daily entry hierarchy"@);
    let year = year_text(date.year as int);
    let (s1, _) = index_ensured(s, st, d, "Daily Index"@, about, root_index);
    let (s2, _) = index_ensured(s1, st, y, year, None, Some(d));
    lemma_index_ensured(s, st, d, "Daily Index"@, about, root_index);
    lemma_index_ensured(s1, st, y, year, None, Some(d));
    lemma_index_ensured(s2, st, m, month_title(date), None, Some(y));
}

proof fn lemma_indexes_linked(
    s: Talk,
    st: StateView,
    date: CalendarDate,
    root_index: Option<Seq<char>>,
)
    ensures
        reasoned(s.replies, indexes_linked(s, st, date, root_index)),
{
    let paths = paths_of(st.folder(), date);
    let (d, y, m) = (paths.daily_index, paths.year_index, paths.month_index);
    if root_index is Some {
        lemma_contents_added(s, st, root_index->0, d);
    }
    let (s1, _) = root_linked(s, st, d, root_index);
    let (s2, _) = contents_added(s1, st, d, y);
    lemma_contents_added(s1, st, d, y);
    lemma_contents_added(s2, st, y, m);
}

proof fn lemma_entry_created(s: Talk, st: StateView, date: CalendarDate)
    ensures
        reasoned(s.replies, entry_created(s, st, date)),
{
    let (s1, _) = exists_asked(s, st.at(paths_of(st.folder(), date).entry));
    let (s2, _) = template_found(s1, st);
    let (s3, _) = now_asked(s2);
    lemma_requests(s);
    lemma_requests(s1);
    assert(reasoned(s1.replies, template_found(s1, st)));
    lemma_requests(s2);
    lemma_requests(s3);
    assert(reasoned(s1.replies, entry_written(s1, st, date)));
}

proof fn lemma_entry_linked(s: Talk, st: StateView, date: CalendarDate)
    ensures
        reasoned(s.replies, entry_linked(s, st, date)),
{
    let paths = paths_of(st.folder(), date);
    let (s1, _) = parent_set(s, st, paths.entry, paths.month_index);
    lemma_parent_set(s, st, paths.entry, paths.month_index);
    lemma_contents_added(s1, st, paths.month_index, paths.entry);
}

/// Seeing to the entry of a date fails only for a reason, and waits only for a reply that
/// it has not got.
pub proof fn law_entry_reasoned(s: Talk, st: StateView, date: CalendarDate)
    ensures
        reasoned(s.replies, entry_ensured(s, st, date)),
{
    let (s1, o1) = first_existing(s, st, root_rel_candidates(st.root));
    lemma_first_existing(s, st, root_rel_candidates(st.root));
    if let Outcome::Got(root_index) = o1 {
        let (s2, _) = indexes_ensured(s1, st, date, root_index);
        let (s3, _) = indexes_linked(s2, st, date, root_index);
        let (s4, _) = entry_created(s3, st, date);
        lemma_indexes_ensured(s1, st, date, root_index);
        lemma_indexes_linked(s2, st, date, root_index);
        lemma_entry_created(s3, st, date);
        lemma_entry_linked(s4, st, date);
    }
}

/// Finding the days of a month never fails, and waits only for a reply that it has not
/// got.
pub proof fn law_days_reasoned(s: Talk, st: StateView, year: int, month: nat)
    ensures
        reasoned(s.replies, days_found(s, st, year, month)),
        days_found(s, st, year, month).1 !is Failed,
{
    let daily_index = scoped(st.folder(), "daily_index.md"@);
    let (s1, o1) = contents_asked(s, st.at(daily_index));
    lemma_markdown(s);
    if let Outcome::Got(contents) = o1 {
        if let Some(year_index) = first_of_year(contents, daily_index, year) {
            lemma_markdown(s1);
        }
    }
    let (t, o) = month_index_found(s, st, year, month);
    assert(reasoned(s.replies, month_index_found(s, st, year, month)));
    lemma_markdown(t);
    let (u, days) = tree_days(s, st, year, month);
    assert(u.replies == s.replies && days !is Failed);
    lemma_requests(u);
}

/// Whether an import of one entry fails and waits only for a reason. The message of an entry
/// is its path, a colon and the reason, or that its date is no date.
pub open spec fn import_reasoned(
    s: Talk,
    st: StateView,
    entry: JsonView,
    dry_run: bool,
    rel: Seq<char>,
) -> bool {
    let (t, o) = entry_imported(s, st, entry, dry_run);
    &&& reasoned(s.replies, (t, o))
    &&& o matches Outcome::Got(ImportView::Failed(message)) ==> {
        ||| exists|cause: Seq<char>|
            message == #[trigger] (rel + ": "@ + cause) && has_reason(t, cause)
        ||| entry.text_field("date"@) matches Some(given) && message == rel + ": "@ + (
        "Invalid date format: "@ + given)
    }
}

/// Importing an entry that names a file fails and waits only for a reason.
pub proof fn law_import_reasoned(
    s: Talk,
    st: StateView,
    entry: JsonView,
    dry_run: bool,
    path: Seq<char>,
)
    requires
        gives_path(entry, path),
    ensures
        import_reasoned(s, st, entry, dry_run, workspace_rel(path, st.root)),
{
    let rel = workspace_rel(path, st.root);
    let (t, o) = entry_imported(s, st, entry, dry_run);
    let (s1, o1) = import_date(s, st, entry, rel);
    lemma_requests(s);
    let (told, _) = now_asked(s);
    lemma_markdown(told);
    let (read, _) = markdown_asked(told, st.at(rel));
    lemma_requests(read);
    assert(reasoned(told.replies, date_inferred(told, st, rel)));
    assert(reasoned(s.replies, (s1, o1)));
    if let Outcome::Got(Ok(date)) = o1 {
        law_entry_reasoned(s1, st, date);
        let (s2, o2) = entry_ensured(s1, st, date);
        if let Outcome::Got((daily, _)) = o2 {
            lemma_parent_set(s2, st, rel, daily);
            let (s3, o3) = parent_set(s2, st, rel, daily);
            lemma_contents_added(s3, st, daily, rel);
            let (s4, o4) = contents_added(s3, st, daily, rel);
            if let Outcome::Failed(cause) = o3 {
                assert(has_reason(s3, cause));
            } else if let Outcome::Failed(cause) = o4 {
                assert(has_reason(s4, cause));
            }
        } else if let Outcome::Failed(cause) = o2 {
            assert(has_reason(s2, cause));
        }
    } else if let Outcome::Got(Err(cause)) = o1 {
        if entry.text_field("date"@) is None {
            assert(has_reason(s1, cause));
        }
    }
}

proof fn lemma_legacy_migrated(s: Talk, config: ConfigView, candidates: Seq<Seq<char>>, any: bool)
    ensures
        reasoned(s.replies, legacy_migrated(s, config, candidates, any)),
    decreases candidates.len(),
{
    lemma_requests(s);
    if candidates.len() > 0 {
        let path = candidates[0];
        let rest = candidates.drop_first();
        let (s1, o1) = exists_asked(s, path);
        match o1 {
            Outcome::Got(true) => {
                let (s2, o2) = markdown_asked(s1, path);
                lemma_markdown(s1);
                if let Outcome::Got(file) = o2 {
                    let taken = legacy_taken(config, file.0);
                    lemma_markdown(s2);
                    let s3 = markdown_written(s2, path, taken.fields, file.1).0;
                    lemma_legacy_migrated(s3, taken.config, rest, true);
                    lemma_legacy_migrated(s2, taken.config, rest, any);
                }
            },
            Outcome::Got(false) => lemma_legacy_migrated(s1, config, rest, any),
            _ => {},
        }
    }
}

/// Taking over the settings of earlier versions fails and waits only for a reason.
pub proof fn law_migrated_reasoned(s: Talk, st: StateView)
    ensures
        reasoned(s.replies, migrated(s, st)),
{
    lemma_legacy_migrated(s, st.config, root_candidates(st.root), false);
    lemma_requests(taken_over(s, st).0);
}

// ---------------------------------------------------------------------------
// Commands
// ---------------------------------------------------------------------------

/// Whether a command refuses its parameters with this message.
pub open spec fn refuses(command: Seq<char>, params: JsonView, message: Seq<char>) -> bool {
    if command == "EnsureDailyEntry"@ || command == "CliDaily"@ {
        message == "Invalid date format: "@ + input_text(params.text_field("date"@))
    } else if command == "GetAdjacentDailyEntry"@ {
        if params.text_field("path"@) is None {
            message == "GetAdjacentDailyEntry requires `path`"@
        } else {
            message == "Path is not a daily entry path"@
        }
    } else if command == "GetEntryState"@ {
        params.text_field("path"@) is None && message == "GetEntryState requires `path`"@
    } else if command == "ListDailyEntryDates"@ {
        if params.int_field("year"@) is None {
            message == "ListDailyEntryDates requires `year`"@
        } else {
            match params.int_field("month"@) {
                Some(month) => !(1 <= month <= 12) && message == "month must be 1-12"@,
                None => message == "ListDailyEntryDates requires `month`"@,
            }
        }
    } else if command == "get_component_html"@ {
        params.text_field("component_id"@) matches Some(id) && id != "daily.panel"@ && message
            == "Unknown component id: "@ + id
    } else {
        !command_names().contains(command) && message == "Unknown command: "@ + command
    }
}

/// Whether a command keeps to its replies, fails only for a reason or where it refuses its
/// parameters, and waits only where the next reply is missing or of another kind.
pub open spec fn run_reasoned<T>(
    replies: Seq<Answer>,
    run: (Talk, Outcome<T>),
    command: Seq<char>,
    params: JsonView,
) -> bool {
    &&& run.0.replies == replies
    &&& run.1 matches Outcome::Failed(message) ==> has_reason(run.0, message) || refuses(
        command,
        params,
        message,
    )
    &&& run.1 matches Outcome::Waiting(ask) ==> (run.0.reply() matches Some(answer) ==> !answers(
        answer,
        ask,
    ))
}

proof fn lemma_dated_commands(s: Talk, st: StateView, params: JsonView)
    ensures
        run_reasoned(s.replies, ensure_command(s, st, params), "EnsureDailyEntry"@, params),
        run_reasoned(s.replies, cli_command(s, st, params), "CliDaily"@, params),
{
    lemma_requests(s);
    let (s1, o1) = date_asked(s, params.text_field("date"@));
    if let Outcome::Got(date) = o1 {
        law_entry_reasoned(s1, st, date);
        let (s2, _) = entry_ensured(s1, st, date);
        lemma_requests(s2);
    }
}

proof fn lemma_adjacent_command(s: Talk, st: StateView, params: JsonView)
    ensures
        run_reasoned(s.replies, adjacent_command(s, st, params), "GetAdjacentDailyEntry"@, params),
{
    lemma_apart();
    if let Some(path) = params.text_field("path"@) {
        if let Some(adjacent) = adjacent_path(workspace_rel(path, st.root), asked_direction(params)) {
            if let Some(date) = date_of_path(adjacent) {
                law_entry_reasoned(s, st, date);
            }
        }
    }
}

proof fn lemma_open_command(s: Talk, st: StateView, back: bool)
    ensures
        reasoned(s.replies, open_command(s, st, back)),
{
    lemma_requests(s);
    let (s1, o1) = now_asked(s);
    if let Outcome::Got(now) = o1 {
        law_entry_reasoned(s1, st, now.date);
        law_entry_reasoned(s1, st, now.date.previous());
    }
}

proof fn lemma_list_command(s: Talk, st: StateView, params: JsonView)
    ensures
        run_reasoned(s.replies, list_command(s, st, params), "ListDailyEntryDates"@, params),
{
    lemma_apart();
    if let (Some(y), Some(m)) = (params.int_field("year"@), params.int_field("month"@)) {
        law_days_reasoned(s, st, y as i64 as i32 as int, m as i64 as u32 as nat);
        if 1 <= m <= 12 {
            assert(m as i64 as u32 == m);
        }
    }
}

proof fn lemma_apart()
    ensures
        "EnsureDailyEntry"@.len() == 16,
        "GetAdjacentDailyEntry"@.len() == 21,
        "GetEntryState"@.len() == 13,
        "ListDailyEntryDates"@.len() == 19,
        "CliDaily"@.len() == 8,
        "get_component_html"@.len() == 18,
        "OpenToday"@.len() == 9,
        "OpenYesterday"@.len() == 13,
        "OpenYesterday"@ != "GetEntryState"@,
        "ImportEntriesToDaily"@.len() == 20,
        "UpdateConfig"@.len() == 12,
{
    reveal_strlit("EnsureDailyEntry");
    reveal_strlit("GetAdjacentDailyEntry");
    reveal_strlit("GetEntryState");
    reveal_strlit("ListDailyEntryDates");
    reveal_strlit("CliDaily");
    reveal_strlit("get_component_html");
    reveal_strlit("OpenToday");
    reveal_strlit("OpenYesterday");
    reveal_strlit("ImportEntriesToDaily");
    reveal_strlit("UpdateConfig");
    assert("OpenYesterday"@[0] == 'O' && "GetEntryState"@[0] == 'G');
}

proof fn lemma_state_command(s: Talk, st: StateView, params: JsonView)
    ensures
        run_reasoned(s.replies, state_command(s, st, params), "GetEntryState"@, params),
{
    lemma_apart();
    lemma_requests(s);
}

#[verifier::spinoff_prover]
#[verifier::rlimit(80)]
proof fn lemma_plain_command(
    s: Talk,
    st: StateView,
    command: Seq<char>,
    params: JsonView,
    panel: Seq<char>,
)
    requires
        command != "ImportEntriesToDaily"@,
        command != "UpdateConfig"@,
    ensures
        run_reasoned(s.replies, plain_command(s, st, command, params, panel), command, params),
{
    lemma_apart();
    if command == "EnsureDailyEntry"@ || command == "CliDaily"@ {
        lemma_dated_commands(s, st, params);
    } else if command == "GetAdjacentDailyEntry"@ {
        lemma_adjacent_command(s, st, params);
    } else if command == "GetEntryState"@ {
        lemma_state_command(s, st, params);
    } else if command == "OpenToday"@ {
        lemma_open_command(s, st, false);
    } else if command == "OpenYesterday"@ {
        lemma_open_command(s, st, true);
    } else if command == "ListDailyEntryDates"@ {
        lemma_list_command(s, st, params);
    } else if command == "get_component_html"@ {
    } else if command_names().contains(command) {
        let names = command_names();
        let i = names.index_of(command);
        assert(names[i] == command);
    }
}

/// Every command but an import fails only for a reason or where it refuses its parameters,
/// and waits only for a reply that it has not got.
pub proof fn law_command_reasoned(
    p: ProgressView,
    st: StateView,
    command: Seq<char>,
    params: JsonView,
    panel: Seq<char>,
)
    requires
        command != "ImportEntriesToDaily"@,
    ensures
        run_reasoned(
            p.talk.replies,
            (
                command_run(p, st, command, params, panel).0.talk,
                command_run(p, st, command, params, panel).1,
            ),
            command,
            params,
        ),
{
    let s = p.talk.fresh();
    if command == "UpdateConfig"@ {
        lemma_requests(s);
    } else {
        lemma_plain_command(s, st, command, params, panel);
    }
}

} // verus!
