//! What an import does to the files of a workspace.

use vstd::prelude::*;

use crate::commands::{
    command_run, entry_imported, import_date, import_linked, law_import_reply, ImportView, ProgressView,
};
use crate::daily_logic::{any_input_date, paths_of};
use crate::date::{law_number_identifies, local_day, moment_reading, CalendarDate, LocalDateTime};
use crate::entries::{
    contents_added, date_numbered, entry_ensured, fields_date, markdown_asked, parent_set, StateView,
};
use crate::files::{
    date_places, files_now, goes_on, has_child, has_parent, law_contents_added, law_entry_ensured,
    law_parent_set, lemma_added_link, lemma_here, lemma_markdown_asked, lemma_named_file, lemma_now,
    lemma_parent_kept, lemma_parent_link, lemma_then, lemma_wider, lemma_writings_before,
    names_file, tells, truthful, writings_read, Files,
};
use crate::frontmatter::{markdown_reading, text_of, Field};
use crate::json::JsonView;
use crate::session::{now_asked, Answer, Ask, Outcome, Talk};
use crate::text::trimmed;
use crate::workspace::{reference, settled};

verus! {

/// Whether an entry of an import gives this path: as a text, or in its field.
pub open spec fn gives_path(entry: JsonView, path: Seq<char>) -> bool {
    entry == JsonView::Text(path) || (entry is Object && entry.text_field("path"@) == Some(path))
}

/// A file can be imported by its path below the workspace and by its path in the file
/// system: the same is asked and written, with the same outcome.
pub proof fn law_import_by_any_path(
    s: Talk,
    st: StateView,
    rel: Seq<char>,
    a: (JsonView, Seq<char>),
    b: (JsonView, Seq<char>),
    dry_run: bool,
)
    requires
        settled(rel),
        trimmed(a.1).len() > 0,
        trimmed(b.1).len() > 0,
        gives_path(a.0, a.1) && names_file(a.1, rel, st),
        gives_path(b.0, b.1) && names_file(b.1, rel, st),
        a.0.text_field("date"@) == b.0.text_field("date"@),
    ensures
        entry_imported(s, st, a.0, dry_run) == entry_imported(s, st, b.0, dry_run),
{
    lemma_named_file(a.1, rel, st);
    lemma_named_file(b.1, rel, st);
}

/// An entry that gives no path, or one of spaces alone, is skipped: nothing is asked.
pub proof fn law_import_skipped(s: Talk, st: StateView, entry: JsonView, dry_run: bool)
    requires
        entry matches JsonView::Text(path) ==> trimmed(path).len() == 0,
        entry !is Text ==> (entry.text_field("path"@) matches Some(path) ==> trimmed(path).len()
            == 0),
    ensures
        entry_imported(s, st, entry, dry_run) == (s, Outcome::Got(ImportView::Skipped)),
{
}

/// Whether the file that an entry of an import names belongs to a date: the one that
/// the entry gives, or else the one that the file holds, as the replies tell it.
pub open spec fn import_dated(
    s: Talk,
    st: StateView,
    entry: JsonView,
    rel: Seq<char>,
    now: LocalDateTime,
    date: CalendarDate,
) -> bool {
    match entry.text_field("date"@) {
        Some(given) => tells(s, now) && any_input_date(given, now) == Some(date),
        None => {
            let told = s.noted(Ask::Now);
            &&& s.reply() matches Some(Answer::Content(Ok(raw))) && moment_reading(
                trimmed(raw),
            ) is Ok
            &&& told.reply() matches Some(Answer::Content(Ok(text))) && (markdown_reading(
                text,
            ) matches Ok(file) && tells(told.noted(Ask::Read(st.at(rel))), now) && date
                == fields_date(file.0, now))
        },
    }
}

/// Where the import asks for the date.
pub open spec fn import_told(s: Talk, st: StateView, entry: JsonView, rel: Seq<char>) -> Talk {
    match entry.text_field("date"@) {
        Some(_) => s.noted(Ask::Now),
        None => s.noted(Ask::Now).noted(Ask::Read(st.at(rel))).noted(Ask::Now),
    }
}

/// Whether a file names the entry of a date as its parent, and that entry lists it.
pub open spec fn linked_to_day(files: Files, st: StateView, rel: Seq<char>, date: CalendarDate) -> bool {
    let daily = paths_of(st.folder(), date).entry;
    &&& has_parent(files, st.at(rel), reference(rel, daily))
    &&& has_child(files, st.at(daily), reference(daily, rel))
}

/// Importing a file sees to the entry of the date that it belongs to. Unless it is a dry
/// run it then makes that entry the parent of the file, and lists the file there; a
/// dry run leaves the file alone. It is done, or there is a message that names the file.
pub proof fn law_import_links(
    files: Files,
    s: Talk,
    st: StateView,
    entry: JsonView,
    dry_run: bool,
    path: Seq<char>,
    rel: Seq<char>,
    now: LocalDateTime,
    date: CalendarDate,
)
    requires
        date.valid(),
        settled(rel),
        trimmed(path).len() > 0,
        gives_path(entry, path) && names_file(path, rel, st),
        import_dated(s, st, entry, rel, now, date),
    ensures
        ({
            let (t, o) = entry_imported(s, st, entry, dry_run);
            let run = entry_ensured(import_told(s, st, entry, rel), st, date);
            let daily = st.at(paths_of(st.folder(), date).entry);
            let after = files_now(files, t);
            &&& goes_on(files, run.0, t, date_places(st, date).insert(st.at(rel)))
            &&& goes_on(files, s, t, date_places(st, date).insert(st.at(rel)))
            &&& dry_run ==> t == run.0 && goes_on(files, s, t, date_places(st, date))
            &&& o matches Outcome::Got(import) ==> {
                &&& import is Done ==> run.1 is Got
                &&& import is Done && truthful(files, t) ==> after.dom().contains(daily)
                &&& import is Done && truthful(files, t) && !dry_run && writings_read(t)
                    ==> linked_to_day(after, st, rel, date)
                &&& import is Done || import is Failed
                &&& dry_run && run.1 is Got ==> import is Done
                &&& import matches ImportView::Failed(message) ==> (rel + ": "@).is_prefix_of(
                    message,
                )
                &&& run.1 matches Outcome::Failed(cause) ==> import == ImportView::Failed(
                    rel + ": "@ + cause,
                )
            }
            &&& o !is Failed
        }),
{
    let few = date_places(st, date);
    let touched = few.insert(st.at(rel));
    let s1 = import_told(s, st, entry, rel);
    let (s2, o2) = entry_ensured(s1, st, date);
    let (t, o) = entry_imported(s, st, entry, dry_run);
    lemma_import_shape(s, st, entry, dry_run, path, rel, now, date);
    lemma_import_told(files, s, st, entry, rel, now, date);
    lemma_ensured_path(s1, st, date);
    law_entry_ensured(files, s1, st, date);
    lemma_then(files, s, s1, s2, few);
    lemma_wider(files, s, s2, few, touched);
    lemma_here(files, s2, touched);
    if o2 is Got && !dry_run {
        lemma_import_linked(files, s2, st, rel, date);
        lemma_then(files, s, s2, t, touched);
    }
    if let Outcome::Got(ImportView::Failed(message)) = o {
        assert((rel + ": "@).is_prefix_of(message));
    }
}

/// An import, from where the date is known.
pub open spec fn import_rest(s: Talk, st: StateView, rel: Seq<char>, dry_run: bool, date: CalendarDate) -> (
    Talk,
    Outcome<ImportView>,
) {
    let (t, o) = entry_ensured(s, st, date);
    match o {
        Outcome::Got((daily, _)) => if dry_run {
            (t, Outcome::Got(ImportView::Done))
        } else {
            import_linked(t, st, rel, daily)
        },
        Outcome::Failed(e) => (t, Outcome::Got(ImportView::Failed(rel + ": "@ + e))),
        Outcome::Waiting(ask) => (t, Outcome::Waiting(ask)),
    }
}

#[verifier::spinoff_prover]
pub(crate) proof fn lemma_import_shape(
    s: Talk,
    st: StateView,
    entry: JsonView,
    dry_run: bool,
    path: Seq<char>,
    rel: Seq<char>,
    now: LocalDateTime,
    date: CalendarDate,
)
    requires
        settled(rel),
        trimmed(path).len() > 0,
        gives_path(entry, path) && names_file(path, rel, st),
        import_dated(s, st, entry, rel, now, date),
    ensures
        entry_imported(s, st, entry, dry_run) == import_rest(
            import_told(s, st, entry, rel),
            st,
            rel,
            dry_run,
            date,
        ),
{
    lemma_named_file(path, rel, st);
    let told = s.noted(Ask::Now);
    assert(now_asked(s).0 == told && now_asked(s).1 is Got);
    let s1 = import_told(s, st, entry, rel);
    if entry.text_field("date"@) is None {
        let read = told.noted(Ask::Read(st.at(rel)));
        assert(markdown_asked(told, st.at(rel)).0 == read);
        assert(now_asked(read) == (s1, Outcome::Got(now)));
    } else {
        assert(now_asked(s) == (told, Outcome::Got(now)));
    }
    assert(import_date(s, st, entry, rel) == (s1, Outcome::Got(Ok::<CalendarDate, Seq<char>>(date))));
}

pub(crate) proof fn lemma_import_told(
    files: Files,
    s: Talk,
    st: StateView,
    entry: JsonView,
    rel: Seq<char>,
    now: LocalDateTime,
    date: CalendarDate,
)
    requires
        import_dated(s, st, entry, rel, now, date),
    ensures
        goes_on(files, s, import_told(s, st, entry, rel), date_places(st, date)),
{
    let few = date_places(st, date);
    let told = s.noted(Ask::Now);
    lemma_now(files, s, few);
    assert(now_asked(s).0 == told);
    if entry.text_field("date"@) is None {
        let read = told.noted(Ask::Read(st.at(rel)));
        assert(markdown_asked(told, st.at(rel)).0 == read);
        lemma_markdown_asked(files, told, st.at(rel), few);
        lemma_then(files, s, told, read, few);
        lemma_now(files, read, few);
        assert(now_asked(read).0 == read.noted(Ask::Now));
        lemma_then(files, s, read, read.noted(Ask::Now), few);
    }
}

/// The path that comes of seeing to an entry.
pub(crate) proof fn lemma_ensured_path(s: Talk, st: StateView, date: CalendarDate)
    ensures
        entry_ensured(s, st, date).1 matches Outcome::Got((path, _)) ==> path == paths_of(
            st.folder(),
            date,
        ).entry,
{
}

proof fn lemma_import_linked(files: Files, s: Talk, st: StateView, rel: Seq<char>, date: CalendarDate)
    requires
        date.valid(),
    ensures
        ({
            let daily = paths_of(st.folder(), date).entry;
            let (t, o) = import_linked(s, st, rel, daily);
            let after = files_now(files, t);
            &&& goes_on(files, s, t, date_places(st, date).insert(st.at(rel)))
            &&& o == Outcome::Got(ImportView::Done) && truthful(files, t) ==> after.dom().contains(
                st.at(daily),
            )
            &&& o == Outcome::Got(ImportView::Done) && truthful(files, t) && writings_read(t)
                ==> linked_to_day(after, st, rel, date)
            &&& o !is Failed
            &&& o matches Outcome::Got(import) ==> import is Done || import is Failed
            &&& o matches Outcome::Got(ImportView::Failed(message)) ==> (rel
                + ": "@).is_prefix_of(message)
        }),
{
    let daily = paths_of(st.folder(), date).entry;
    let touched = date_places(st, date).insert(st.at(rel));
    let (s1, o1) = parent_set(s, st, rel, daily);
    law_parent_set(files, s, st, rel, daily);
    lemma_wider(files, s, s1, Set::empty().insert(st.at(rel)), touched);
    if o1 is Got {
        let (s2, o2) = contents_added(s1, st, daily, rel);
        law_contents_added(files, s1, st, daily, rel);
        lemma_wider(files, s1, s2, Set::empty().insert(st.at(daily)), touched);
        lemma_then(files, s, s1, s2, touched);
        if o2 is Got && truthful(files, s2) && writings_read(s2) {
            lemma_writings_before(files, s1, s2, touched);
            lemma_parent_link(files, s, st, rel, daily);
            let but = st.at(rel).push('x');
            assert(but.len() != st.at(rel).len());
            lemma_added_link(files, s1, st, daily, rel, but);
            lemma_parent_kept(
                files_now(files, s1),
                files_now(files, s2),
                but,
                st.at(rel),
                reference(rel, daily),
            );
        }
    }
    let o = import_linked(s, st, rel, daily).1;
    if let Outcome::Got(ImportView::Failed(message)) = o {
        assert((rel + ": "@).is_prefix_of(message));
    }
}

/// `ImportEntriesToDaily` goes through its entries in order, and imports each by
/// itself: what is done adds to the count, what fails adds its message, and a request
/// is passed on. At the end the reply tells the count, the messages, and whether it
/// was a dry run; the state stays as it is.
pub proof fn law_import_command(p: ProgressView, st: StateView, params: JsonView, panel: Seq<char>)
    ensures
        ({
            let (q, o) = command_run(p, st, "ImportEntriesToDaily"@, params, panel);
            let entries = params.list_field("entries"@);
            let dry_run = params.bool_field("dry_run"@) == Some(true);
            if p.next >= entries.len() {
                &&& q == p
                &&& o matches Outcome::Got((reply, after)) && after == st && {
                    &&& reply.field("imported"@) == Some(JsonView::Int(p.imported as int))
                    &&& reply.bool_field("dry_run"@) == Some(dry_run)
                    &&& reply.list_field("errors"@).len() == p.errors.len()
                    &&& forall|i: int|
                        0 <= i < p.errors.len() ==> (#[trigger] reply.list_field("errors"@)[i])
                            == JsonView::Text(p.errors[i])
                }
            } else {
                let (t, one) = entry_imported(
                    p.talk.fresh(),
                    st,
                    entries[p.next as int],
                    dry_run,
                );
                let next = ProgressView {
                    talk: Talk { replies: Seq::empty(), asked: Seq::empty() },
                    next: p.next + 1,
                    ..p
                };
                let then = match one {
                    Outcome::Got(ImportView::Done) => ProgressView {
                        imported: p.imported + 1,
                        ..next
                    },
                    Outcome::Got(ImportView::Failed(message)) => ProgressView {
                        errors: p.errors.push(message),
                        ..next
                    },
                    _ => next,
                };
                match one {
                    Outcome::Got(_) => (q, o) == command_run(
                        then,
                        st,
                        "ImportEntriesToDaily"@,
                        params,
                        panel,
                    ),
                    Outcome::Failed(message) => q == p.in_talk(t) && o == Outcome::<
                        (JsonView, StateView),
                    >::Failed(message),
                    Outcome::Waiting(ask) => q == p.in_talk(t) && o == Outcome::<
                        (JsonView, StateView),
                    >::Waiting(ask),
                }
            }
        }),
{
    let dry_run = params.bool_field("dry_run"@) == Some(true);
    law_import_reply(p.imported, p.errors, dry_run);
}

/// A date that cannot be read, a file that cannot be read, and a time that cannot be told
/// at first: the first two are told as messages that name the file, the last ends the
/// import.
pub proof fn law_import_fails(
    s: Talk,
    st: StateView,
    entry: JsonView,
    dry_run: bool,
    path: Seq<char>,
    rel: Seq<char>,
    now: LocalDateTime,
)
    requires
        settled(rel),
        trimmed(path).len() > 0,
        gives_path(entry, path) && names_file(path, rel, st),
    ensures
        ({
            let told = s.noted(Ask::Now);
            let run = entry_imported(s, st, entry, dry_run);
            &&& tells(s, now) && (entry.text_field("date"@) matches Some(given) && any_input_date(
                given,
                now,
            ) is None) ==> run == (
                told,
                Outcome::Got(
                    ImportView::Failed(
                        rel + ": "@ + ("Invalid date format: "@ + entry.text_field("date"@)->0),
                    ),
                ),
            )
            &&& tells(s, now) && entry.text_field("date"@) is None && (told.reply() matches Some(
                Answer::Content(Err(e)),
            ) && true) ==> run == (
                told.noted(Ask::Read(st.at(rel))),
                Outcome::Got(ImportView::Failed(rel + ": "@ + told.reply()->0->Content_0->Err_0)),
            )
            &&& s.reply() is None ==> run == (s, Outcome::<ImportView>::Waiting(Ask::Now))
        }),
{
    lemma_named_file(path, rel, st);
    if tells(s, now) {
        assert(now_asked(s) == (s.noted(Ask::Now), Outcome::Got(now)));
    }
}

/// The date that belongs to a file: that of its field `date`, or else of `created`, or
/// else of `updated`, where a moment counts by the local time; the day it is where
/// none of them is there or can be read.
pub proof fn law_file_date(
    fields: Seq<(Seq<char>, Field)>,
    now: LocalDateTime,
    day: CalendarDate,
)
    requires
        day.valid(),
    ensures
        ({
            let first = match text_of(fields, "date"@) {
                Some(raw) => any_input_date(raw, now),
                None => None,
            };
            let second = match text_of(fields, "created"@) {
                Some(raw) => any_input_date(raw, now),
                None => None,
            };
            let date = fields_date(fields, now);
            &&& first is Some ==> date == first->0
            &&& first is None && second is Some ==> date == second->0
            &&& first is None && second is None ==> match text_of(fields, "updated"@) {
                Some(raw) => match moment_reading(raw) {
                    Ok(moment) => day.number() == local_day(moment, now.offset) ==> date == day,
                    Err(_) => date == match any_input_date(raw, now) {
                        Some(d) => d,
                        None => now.date,
                    },
                },
                None => date == now.date,
            }
        }),
{
    if let Some(raw) = text_of(fields, "updated"@) {
        if let Ok(moment) = moment_reading(raw) {
            let n = local_day(moment, now.offset);
            if day.number() == n {
                let d = date_numbered(n);
                assert(d.valid() && d.number() == n);
                law_number_identifies(d, day);
            }
        }
    }
}

} // verus!
