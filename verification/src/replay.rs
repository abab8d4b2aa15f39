//! Running an operation again with more replies.
//!
//! An operation that waits for a reply is run again when the reply is there. It
//! then makes the same requests in the same order, and the one that it waited for
//! next. One that has ended ends in the same way, whatever replies are added.

use vstd::prelude::*;

use crate::commands::{
    adjacent_command, asked_direction, cli_command, date_asked, ensure_command, entry_imported,
    import_date, import_failed, import_linked, import_path, list_command, open_command, open_reply,
    plain_command, print_reply, state_command, ImportView,
};
use crate::daily_logic::{
    adjacent_path, date_of_path, paths_of, rendered, scoped, ConfigView,
};
use crate::date::{year_text, CalendarDate, LocalDateTime};
use crate::entries::{
    contents_added, date_inferred, entry_created, entry_ensured, entry_linked, entry_title,
    entry_written, first_existing, index_body, index_ensured, index_fields, index_settled,
    indexes_ensured, indexes_linked, markdown_asked, markdown_written, month_title, parent_set,
    root_linked, template_found, template_path, StateView,
};
use crate::frontmatter::{markdown_text, sequence_of, text_list, with_field, Field};
use crate::json::JsonView;
use crate::listing::{
    contents_asked, days_found, first_of_year, index_days, month_folder, month_index_found,
    tree_days,
};
use crate::session::{
    exists_asked, files_asked, load_asked, now_asked, read_asked, save_asked, stopped, write_asked,
    Outcome, Talk,
};
use crate::settings::{
    config_merged, config_set, config_updated, folder_update, legacy_migrated, legacy_taken,
    migrated, opening_finished, opening_saved, root_updated, take_over_saved, taken_over,
    workspace_loaded, OpenedView,
};
use crate::text::trimmed;
use crate::workspace::{
    link_target, reference, root_candidates, root_rel_candidates, storage_key, workspace_rel,
};

verus! {

/// Whether `t` goes on from `s`: it has asked the same so far.
pub open spec fn onward(s: Talk, t: Talk) -> bool {
    &&& s.replies == t.replies
    &&& s.asked.len() <= t.asked.len()
    &&& forall|i: int| 0 <= i < s.asked.len() ==> s.asked[i] == #[trigger] t.asked[i]
}

/// Whether `u` stands where `s` does, with the same replies and perhaps more.
pub open spec fn later(s: Talk, u: Talk) -> bool {
    &&& s.asked == u.asked
    &&& s.replies.len() <= u.replies.len()
    &&& forall|i: int| 0 <= i < s.replies.len() ==> s.replies[i] == #[trigger] u.replies[i]
}

/// Whether a run with more replies does as the first one did: the same requests,
/// then the one that was waited for; or the same end.
pub open spec fn resumed<T>(run: (Talk, Outcome<T>), rerun: (Talk, Outcome<T>)) -> bool {
    let (t, o) = run;
    let (v, p) = rerun;
    &&& t.asked.len() <= v.asked.len()
    &&& forall|i: int| 0 <= i < t.asked.len() ==> t.asked[i] == #[trigger] v.asked[i]
    &&& match o {
        Outcome::Waiting(ask) => {
            ||| v.asked.len() > t.asked.len() && v.asked[t.asked.len() as int] == ask
            ||| v.asked == t.asked && p == o
        },
        _ => v.asked == t.asked && p == o,
    }
}

/// Two runs from `s` and `u` go on from there; if `u` only has more replies, the
/// second does as the first.
pub open spec fn steady<T>(
    s: Talk,
    u: Talk,
    run: (Talk, Outcome<T>),
    rerun: (Talk, Outcome<T>),
) -> bool {
    &&& onward(s, run.0)
    &&& onward(u, rerun.0)
    &&& later(s, u) ==> resumed(run, rerun)
}

/// One operation after another.
proof fn lemma_joint<A, B>(
    s: Talk,
    u: Talk,
    first: (Talk, Outcome<A>),
    first_again: (Talk, Outcome<A>),
    run: (Talk, Outcome<B>),
    rerun: (Talk, Outcome<B>),
)
    requires
        steady(s, u, first, first_again),
        first.1 is Got ==> onward(first.0, run.0),
        first.1 !is Got ==> run == (first.0, stopped::<A, B>(first.1)),
        first_again.1 is Got ==> onward(first_again.0, rerun.0),
        first_again.1 !is Got ==> rerun == (first_again.0, stopped::<A, B>(first_again.1)),
        first.1 is Got && first.1 == first_again.1 && later(first.0, first_again.0) ==> resumed(
            run,
            rerun,
        ),
    ensures
        steady(s, u, run, rerun),
{
    if later(s, u) {
        let (s1, u1, v) = (first.0, first_again.0, rerun.0);
        assert(later(s1, u1) || first.1 is Waiting);
        if let Outcome::Waiting(ask) = first.1 {
            assert(forall|i: int| 0 <= i < s1.asked.len() ==> s1.asked[i] == #[trigger] u1.asked[i]);
            if u1.asked.len() > s1.asked.len() {
                assert(v.asked[s1.asked.len() as int] == u1.asked[s1.asked.len() as int]);
            }
        }
    }
}

// ---------------------------------------------------------------------------
// Requests
// ---------------------------------------------------------------------------

proof fn lemma_exists(s: Talk, u: Talk, path: Seq<char>)
    ensures
        steady(s, u, exists_asked(s, path), exists_asked(u, path)),
{
}

proof fn lemma_read(s: Talk, u: Talk, path: Seq<char>)
    ensures
        steady(s, u, read_asked(s, path), read_asked(u, path)),
{
}

proof fn lemma_write(s: Talk, u: Talk, path: Seq<char>, text: Seq<char>)
    ensures
        steady(s, u, write_asked(s, path, text), write_asked(u, path, text)),
{
}

proof fn lemma_files(s: Talk, u: Talk, prefix: Seq<char>)
    ensures
        steady(s, u, files_asked(s, prefix), files_asked(u, prefix)),
{
}

proof fn lemma_now(s: Talk, u: Talk)
    ensures
        steady(s, u, now_asked(s), now_asked(u)),
{
}

proof fn lemma_save(s: Talk, u: Talk, key: Seq<char>, config: ConfigView)
    ensures
        steady(s, u, save_asked(s, key, config), save_asked(u, key, config)),
{
}

proof fn lemma_load(s: Talk, u: Talk, key: Seq<char>)
    ensures
        steady(s, u, load_asked(s, key), load_asked(u, key)),
{
}

// ---------------------------------------------------------------------------
// Entries
// ---------------------------------------------------------------------------

proof fn lemma_first_existing(s: Talk, u: Talk, st: StateView, candidates: Seq<Seq<char>>)
    ensures
        steady(s, u, first_existing(s, st, candidates), first_existing(u, st, candidates)),
    decreases candidates.len(),
{
    if candidates.len() > 0 {
        let path = st.at(candidates[0]);
        let rest = candidates.drop_first();
        let (s1, o1) = exists_asked(s, path);
        let (u1, p1) = exists_asked(u, path);
        lemma_exists(s, u, path);
        lemma_first_existing(s1, u1, st, rest);
        lemma_joint(
            s,
            u,
            exists_asked(s, path),
            exists_asked(u, path),
            first_existing(s, st, candidates),
            first_existing(u, st, candidates),
        );
    }
}

proof fn lemma_markdown_written(
    s: Talk,
    u: Talk,
    path: Seq<char>,
    fields: Seq<(Seq<char>, Field)>,
    body: Seq<char>,
)
    ensures
        steady(
            s,
            u,
            markdown_written(s, path, fields, body),
            markdown_written(u, path, fields, body),
        ),
{
    if let Ok(text) = markdown_text(fields, body) {
        lemma_write(s, u, path, text);
    }
}

proof fn lemma_markdown_asked(s: Talk, u: Talk, path: Seq<char>)
    ensures
        steady(s, u, markdown_asked(s, path), markdown_asked(u, path)),
{
    lemma_read(s, u, path);
    lemma_joint(
        s,
        u,
        read_asked(s, path),
        read_asked(u, path),
        markdown_asked(s, path),
        markdown_asked(u, path),
    );
}

proof fn lemma_index_settled(
    s: Talk,
    u: Talk,
    path: Seq<char>,
    file: (Seq<(Seq<char>, Field)>, Seq<char>),
    found: bool,
    title: Seq<char>,
    description: Option<Seq<char>>,
    part_of: Option<Seq<char>>,
)
    ensures
        steady(
            s,
            u,
            index_settled(s, path, file, found, title, description, part_of),
            index_settled(u, path, file, found, title, description, part_of),
        ),
{
    let (fields, changed) = index_fields(file.0, title, description, part_of);
    let body = index_body(file.1, title);
    if !found || changed || trimmed(file.1).len() == 0 {
        lemma_markdown_written(s, u, path, fields, body);
        lemma_joint(
            s,
            u,
            markdown_written(s, path, fields, body),
            markdown_written(u, path, fields, body),
            index_settled(s, path, file, found, title, description, part_of),
            index_settled(u, path, file, found, title, description, part_of),
        );
    }
}

proof fn lemma_index_ensured(
    s: Talk,
    u: Talk,
    st: StateView,
    rel: Seq<char>,
    title: Seq<char>,
    description: Option<Seq<char>>,
    parent: Option<Seq<char>>,
)
    ensures
        steady(
            s,
            u,
            index_ensured(s, st, rel, title, description, parent),
            index_ensured(u, st, rel, title, description, parent),
        ),
{
    let path = st.at(rel);
    let part_of = match parent {
        Some(p) => Some(reference(rel, p)),
        None => None,
    };
    let none = (Seq::<(Seq<char>, Field)>::empty(), Seq::<char>::empty());
    let (s1, o1) = exists_asked(s, path);
    let (u1, p1) = exists_asked(u, path);
    lemma_exists(s, u, path);
    let (s2, o2) = markdown_asked(s1, path);
    let (u2, p2) = markdown_asked(u1, path);
    lemma_markdown_asked(s1, u1, path);
    lemma_index_settled(s1, u1, path, none, false, title, description, part_of);
    if let Outcome::Got(file) = o2 {
        lemma_index_settled(s2, u2, path, file, true, title, description, part_of);
    }
    if let Outcome::Got(file) = p2 {
        lemma_index_settled(u2, u2, path, file, true, title, description, part_of);
    }
    let read = match o2 {
        Outcome::Got(file) => index_settled(s2, path, file, true, title, description, part_of),
        _ => (s2, stopped(o2)),
    };
    let read_again = match p2 {
        Outcome::Got(file) => index_settled(u2, path, file, true, title, description, part_of),
        _ => (u2, stopped(p2)),
    };
    lemma_joint(s1, u1, (s2, o2), (u2, p2), read, read_again);
    lemma_joint(
        s,
        u,
        (s1, o1),
        (u1, p1),
        index_ensured(s, st, rel, title, description, parent),
        index_ensured(u, st, rel, title, description, parent),
    );
}

proof fn lemma_contents_added(
    s: Talk,
    u: Talk,
    st: StateView,
    index: Seq<char>,
    child: Seq<char>,
)
    ensures
        steady(s, u, contents_added(s, st, index, child), contents_added(u, st, index, child)),
{
    let path = st.at(index);
    let target = reference(index, child);
    let (s1, o1) = markdown_asked(s, path);
    let (u1, p1) = markdown_asked(u, path);
    lemma_markdown_asked(s, u, path);
    if let Outcome::Got(file) = o1 {
        let fields = with_field(
            file.0,
            "contents"@,
            text_list(sequence_of(file.0, "contents"@).push(target)),
        );
        lemma_markdown_written(s1, u1, path, fields, file.1);
        lemma_joint(
            s1,
            u1,
            markdown_written(s1, path, fields, file.1),
            markdown_written(u1, path, fields, file.1),
            added(s1, path, fields, file.1),
            added(u1, path, fields, file.1),
        );
    }
    if let Outcome::Got(file) = p1 {
        let fields = with_field(
            file.0,
            "contents"@,
            text_list(sequence_of(file.0, "contents"@).push(target)),
        );
        lemma_markdown_written(u1, u1, path, fields, file.1);
    }
    lemma_joint(
        s,
        u,
        (s1, o1),
        (u1, p1),
        contents_added(s, st, index, child),
        contents_added(u, st, index, child),
    );
}

/// A file that is written with something added.
spec fn added(s: Talk, path: Seq<char>, fields: Seq<(Seq<char>, Field)>, body: Seq<char>) -> (
    Talk,
    Outcome<bool>,
) {
    let (t, o) = markdown_written(s, path, fields, body);
    match o {
        Outcome::Got(_) => (t, Outcome::Got(true)),
        _ => (t, stopped(o)),
    }
}

proof fn lemma_parent_set(s: Talk, u: Talk, st: StateView, child: Seq<char>, parent: Seq<char>)
    ensures
        steady(s, u, parent_set(s, st, child, parent), parent_set(u, st, child, parent)),
{
    let path = st.at(child);
    let part_of = Field::Text(reference(child, parent));
    let (s1, o1) = markdown_asked(s, path);
    let (u1, p1) = markdown_asked(u, path);
    lemma_markdown_asked(s, u, path);
    if let Outcome::Got(file) = o1 {
        lemma_markdown_written(s1, u1, path, with_field(file.0, "part_of"@, part_of), file.1);
    }
    if let Outcome::Got(file) = p1 {
        lemma_markdown_written(u1, u1, path, with_field(file.0, "part_of"@, part_of), file.1);
    }
    lemma_joint(
        s,
        u,
        (s1, o1),
        (u1, p1),
        parent_set(s, st, child, parent),
        parent_set(u, st, child, parent),
    );
}

proof fn lemma_template_found(s: Talk, u: Talk, st: StateView)
    ensures
        steady(s, u, template_found(s, st), template_found(u, st)),
{
    if st.config.entry_template is Some {
        let setting = trimmed(st.config.entry_template->0);
        lemma_read(s, u, st.at(template_path(setting, link_target(setting).path)));
    }
}

proof fn lemma_indexes_ensured(
    s: Talk,
    u: Talk,
    st: StateView,
    date: CalendarDate,
    root: Option<Seq<char>>,
)
    ensures
        steady(s, u, indexes_ensured(s, st, date, root), indexes_ensured(u, st, date, root)),
{
    let paths = paths_of(st.folder(), date);
    let (d, y, m) = (paths.daily_index, paths.year_index, paths.month_index);
    let about = Some("Date-based daily entry hierarchy"@);
    let year = year_text(date.year as int);
    let month = month_title(date);
    let r1 = index_ensured(s, st, d, "Daily Index"@, about, root);
    let q1 = index_ensured(u, st, d, "Daily Index"@, about, root);
    lemma_index_ensured(s, u, st, d, "Daily Index"@, about, root);
    let r2 = index_ensured(r1.0, st, y, year, None, Some(d));
    let q2 = index_ensured(q1.0, st, y, year, None, Some(d));
    lemma_index_ensured(r1.0, q1.0, st, y, year, None, Some(d));
    let r3 = index_ensured(r2.0, st, m, month, None, Some(y));
    let q3 = index_ensured(q2.0, st, m, month, None, Some(y));
    lemma_index_ensured(r2.0, q2.0, st, m, month, None, Some(y));
    let (r4, q4) = (unit(r3), unit(q3));
    lemma_joint(r2.0, q2.0, r3, q3, r4, q4);
    let (r5, q5) = (after(r2, r4), after(q2, q4));
    lemma_joint(r1.0, q1.0, r2, q2, r5, q5);
    lemma_joint(
        s,
        u,
        r1,
        q1,
        indexes_ensured(s, st, date, root),
        indexes_ensured(u, st, date, root),
    );
}

/// A run of which only the end counts.
spec fn unit<T>(run: (Talk, Outcome<T>)) -> (Talk, Outcome<()>) {
    match run.1 {
        Outcome::Got(_) => (run.0, Outcome::Got(())),
        _ => (run.0, stopped(run.1)),
    }
}

/// A run that goes on where the first one has ended well.
spec fn after<A, B>(first: (Talk, Outcome<A>), next: (Talk, Outcome<B>)) -> (Talk, Outcome<B>) {
    match first.1 {
        Outcome::Got(_) => next,
        _ => (first.0, stopped(first.1)),
    }
}

proof fn lemma_root_linked(
    s: Talk,
    u: Talk,
    st: StateView,
    daily_index: Seq<char>,
    root: Option<Seq<char>>,
)
    ensures
        steady(s, u, root_linked(s, st, daily_index, root), root_linked(u, st, daily_index, root)),
{
    if root is Some && root != Some(daily_index) {
        let r1 = contents_added(s, st, root->0, daily_index);
        let q1 = contents_added(u, st, root->0, daily_index);
        lemma_contents_added(s, u, st, root->0, daily_index);
        lemma_joint(
            s,
            u,
            r1,
            q1,
            root_linked(s, st, daily_index, root),
            root_linked(u, st, daily_index, root),
        );
    }
}

proof fn lemma_indexes_linked(
    s: Talk,
    u: Talk,
    st: StateView,
    date: CalendarDate,
    root: Option<Seq<char>>,
)
    ensures
        steady(s, u, indexes_linked(s, st, date, root), indexes_linked(u, st, date, root)),
{
    let paths = paths_of(st.folder(), date);
    let (d, y, m) = (paths.daily_index, paths.year_index, paths.month_index);
    let (r1, q1) = (root_linked(s, st, d, root), root_linked(u, st, d, root));
    lemma_root_linked(s, u, st, d, root);
    let (r2, q2) = (contents_added(r1.0, st, d, y), contents_added(q1.0, st, d, y));
    lemma_contents_added(r1.0, q1.0, st, d, y);
    let (r3, q3) = (contents_added(r2.0, st, y, m), contents_added(q2.0, st, y, m));
    lemma_contents_added(r2.0, q2.0, st, y, m);
    let (r4, q4) = (unit(r3), unit(q3));
    lemma_joint(r2.0, q2.0, r3, q3, r4, q4);
    let (r5, q5) = (after(r2, r4), after(q2, q4));
    lemma_joint(r1.0, q1.0, r2, q2, r5, q5);
    lemma_joint(
        s,
        u,
        r1,
        q1,
        indexes_linked(s, st, date, root),
        indexes_linked(u, st, date, root),
    );
}

proof fn lemma_entry_written(s: Talk, u: Talk, st: StateView, date: CalendarDate)
    ensures
        steady(s, u, entry_written(s, st, date), entry_written(u, st, date)),
{
    let paths = paths_of(st.folder(), date);
    let place = st.at(paths.entry);
    let part_of = reference(paths.entry, paths.month_index);
    let (r1, q1) = (template_found(s, st), template_found(u, st));
    lemma_template_found(s, u, st);
    let (r2, q2) = (now_asked(r1.0), now_asked(q1.0));
    lemma_now(r1.0, q1.0);
    if r1.1 is Got && r2.1 is Got {
        let text = rendered(r1.1->Got_0, entry_title(date), date, part_of, r2.1->Got_0);
        lemma_write(r2.0, q2.0, place, text);
    }
    if q1.1 is Got && q2.1 is Got {
        let text = rendered(q1.1->Got_0, entry_title(date), date, part_of, q2.1->Got_0);
        lemma_write(q2.0, q2.0, place, text);
    }
    if r1.1 is Got && q1.1 is Got {
        lemma_joint(
            r1.0,
            q1.0,
            r2,
            q2,
            filled(r2, st, date, r1.1->Got_0),
            filled(q2, st, date, r1.1->Got_0),
        );
    }
    lemma_joint(s, u, r1, q1, entry_written(s, st, date), entry_written(u, st, date));
}

/// The entry, written from a template once the time is known.
spec fn filled(
    now: (Talk, Outcome<LocalDateTime>),
    st: StateView,
    date: CalendarDate,
    template: Seq<char>,
) -> (Talk, Outcome<()>) {
    let paths = paths_of(st.folder(), date);
    let part_of = reference(paths.entry, paths.month_index);
    match now.1 {
        Outcome::Got(moment) => write_asked(
            now.0,
            st.at(paths.entry),
            rendered(template, entry_title(date), date, part_of, moment),
        ),
        _ => (now.0, stopped(now.1)),
    }
}

proof fn lemma_entry_created(s: Talk, u: Talk, st: StateView, date: CalendarDate)
    ensures
        steady(s, u, entry_created(s, st, date), entry_created(u, st, date)),
{
    let place = st.at(paths_of(st.folder(), date).entry);
    let (r1, q1) = (exists_asked(s, place), exists_asked(u, place));
    lemma_exists(s, u, place);
    let (r2, q2) = (entry_written(r1.0, st, date), entry_written(q1.0, st, date));
    lemma_entry_written(r1.0, q1.0, st, date);
    lemma_joint(r1.0, q1.0, r2, q2, made(r2), made(q2));
    lemma_joint(s, u, r1, q1, entry_created(s, st, date), entry_created(u, st, date));
}

/// A run whose good end made something new.
spec fn made(run: (Talk, Outcome<()>)) -> (Talk, Outcome<bool>) {
    match run.1 {
        Outcome::Got(_) => (run.0, Outcome::Got(true)),
        _ => (run.0, stopped(run.1)),
    }
}

proof fn lemma_entry_linked(s: Talk, u: Talk, st: StateView, date: CalendarDate)
    ensures
        steady(s, u, entry_linked(s, st, date), entry_linked(u, st, date)),
{
    let paths = paths_of(st.folder(), date);
    let (e, m) = (paths.entry, paths.month_index);
    let (r1, q1) = (parent_set(s, st, e, m), parent_set(u, st, e, m));
    lemma_parent_set(s, u, st, e, m);
    let (r2, q2) = (contents_added(r1.0, st, m, e), contents_added(q1.0, st, m, e));
    lemma_contents_added(r1.0, q1.0, st, m, e);
    lemma_joint(r1.0, q1.0, r2, q2, unit(r2), unit(q2));
    lemma_joint(s, u, r1, q1, entry_linked(s, st, date), entry_linked(u, st, date));
}

/// Seeing to the entry of a date can be resumed.
pub proof fn law_entry_resumed(s: Talk, u: Talk, st: StateView, date: CalendarDate)
    ensures
        steady(s, u, entry_ensured(s, st, date), entry_ensured(u, st, date)),
{
    let candidates = root_rel_candidates(st.root);
    let (r1, q1) = (first_existing(s, st, candidates), first_existing(u, st, candidates));
    lemma_first_existing(s, u, st, candidates);
    if let Outcome::Got(root) = r1.1 {
        lemma_entry_rest(r1.0, q1.0, st, date, root);
    }
    if let Outcome::Got(root) = q1.1 {
        lemma_entry_rest(q1.0, q1.0, st, date, root);
    }
    lemma_joint(s, u, r1, q1, entry_ensured(s, st, date), entry_ensured(u, st, date));
}

/// All of it once the root index is known.
spec fn entry_rest(s: Talk, st: StateView, date: CalendarDate, root: Option<Seq<char>>) -> (
    Talk,
    Outcome<(Seq<char>, bool)>,
) {
    let r2 = indexes_ensured(s, st, date, root);
    let r3 = indexes_linked(r2.0, st, date, root);
    let r4 = entry_created(r3.0, st, date);
    let r5 = entry_linked(r4.0, st, date);
    after(r2, after(r3, told(r4, r5, paths_of(st.folder(), date).entry)))
}

/// What is told of an entry in the end.
spec fn told(
    created: (Talk, Outcome<bool>),
    linked: (Talk, Outcome<()>),
    path: Seq<char>,
) -> (Talk, Outcome<(Seq<char>, bool)>) {
    match created.1 {
        Outcome::Got(b) => match linked.1 {
            Outcome::Got(_) => (linked.0, Outcome::Got((path, b))),
            _ => (linked.0, stopped(linked.1)),
        },
        _ => (created.0, stopped(created.1)),
    }
}

proof fn lemma_entry_rest(
    s: Talk,
    u: Talk,
    st: StateView,
    date: CalendarDate,
    root: Option<Seq<char>>,
)
    ensures
        steady(s, u, entry_rest(s, st, date, root), entry_rest(u, st, date, root)),
{
    let path = paths_of(st.folder(), date).entry;
    let (r2, q2) = (indexes_ensured(s, st, date, root), indexes_ensured(u, st, date, root));
    lemma_indexes_ensured(s, u, st, date, root);
    let (r3, q3) = (indexes_linked(r2.0, st, date, root), indexes_linked(q2.0, st, date, root));
    lemma_indexes_linked(r2.0, q2.0, st, date, root);
    let (r4, q4) = (entry_created(r3.0, st, date), entry_created(q3.0, st, date));
    lemma_entry_created(r3.0, q3.0, st, date);
    let (r5, q5) = (entry_linked(r4.0, st, date), entry_linked(q4.0, st, date));
    lemma_entry_linked(r4.0, q4.0, st, date);
    let (r6, q6) = (told(r4, r5, path), told(q4, q5, path));
    lemma_joint(r3.0, q3.0, r4, q4, r6, q6);
    let (r7, q7) = (after(r3, r6), after(q3, q6));
    lemma_joint(r2.0, q2.0, r3, q3, r7, q7);
    lemma_joint(s, u, r2, q2, entry_rest(s, st, date, root), entry_rest(u, st, date, root));
}

proof fn lemma_date_inferred(s: Talk, u: Talk, st: StateView, rel: Seq<char>)
    ensures
        steady(s, u, date_inferred(s, st, rel), date_inferred(u, st, rel)),
{
    let path = st.at(rel);
    let (r1, q1) = (markdown_asked(s, path), markdown_asked(u, path));
    lemma_markdown_asked(s, u, path);
    lemma_now(r1.0, q1.0);
    lemma_joint(s, u, r1, q1, date_inferred(s, st, rel), date_inferred(u, st, rel));
}

// ---------------------------------------------------------------------------
// Listing
// ---------------------------------------------------------------------------

proof fn lemma_contents_asked(s: Talk, u: Talk, path: Seq<char>)
    ensures
        steady(s, u, contents_asked(s, path), contents_asked(u, path)),
{
    lemma_markdown_asked(s, u, path);
    lemma_joint(
        s,
        u,
        markdown_asked(s, path),
        markdown_asked(u, path),
        contents_asked(s, path),
        contents_asked(u, path),
    );
}

proof fn lemma_month_index_found(s: Talk, u: Talk, st: StateView, year: int, month: nat)
    ensures
        steady(
            s,
            u,
            month_index_found(s, st, year, month),
            month_index_found(u, st, year, month),
        ),
{
    let daily_index = scoped(st.folder(), "daily_index.md"@);
    let path = st.at(daily_index);
    let (r1, q1) = (contents_asked(s, path), contents_asked(u, path));
    lemma_contents_asked(s, u, path);
    if let Outcome::Got(contents) = r1.1 {
        if let Some(index) = first_of_year(contents, daily_index, year) {
            lemma_contents_asked(r1.0, q1.0, st.at(index));
        }
    }
    if let Outcome::Got(contents) = q1.1 {
        if let Some(index) = first_of_year(contents, daily_index, year) {
            lemma_contents_asked(q1.0, q1.0, st.at(index));
        }
    }
    lemma_joint(
        s,
        u,
        r1,
        q1,
        month_index_found(s, st, year, month),
        month_index_found(u, st, year, month),
    );
}

proof fn lemma_index_days(
    s: Talk,
    u: Talk,
    st: StateView,
    index: Seq<char>,
    year: int,
    month: int,
)
    ensures
        steady(s, u, index_days(s, st, index, year, month), index_days(u, st, index, year, month)),
{
    let path = st.at(index);
    lemma_markdown_asked(s, u, path);
    lemma_joint(
        s,
        u,
        markdown_asked(s, path),
        markdown_asked(u, path),
        index_days(s, st, index, year, month),
        index_days(u, st, index, year, month),
    );
}

proof fn lemma_tree_days(s: Talk, u: Talk, st: StateView, year: int, month: nat)
    ensures
        steady(s, u, tree_days(s, st, year, month), tree_days(u, st, year, month)),
{
    let (r1, q1) = (
        month_index_found(s, st, year, month),
        month_index_found(u, st, year, month),
    );
    lemma_month_index_found(s, u, st, year, month);
    if let Outcome::Got(Some(index)) = r1.1 {
        lemma_index_days(r1.0, q1.0, st, index, year, month as int);
    }
    if let Outcome::Got(Some(index)) = q1.1 {
        lemma_index_days(q1.0, q1.0, st, index, year, month as int);
    }
    if later(s, u) {
        if let Outcome::Waiting(ask) = r1.1 {
            let n = r1.0.asked.len() as int;
            let v = tree_days(u, st, year, month).0;
            if q1.0.asked.len() > n {
                assert(v.asked[n] == q1.0.asked[n]);
            }
        }
    }
}

proof fn lemma_days_found(s: Talk, u: Talk, st: StateView, year: int, month: nat)
    ensures
        steady(s, u, days_found(s, st, year, month), days_found(u, st, year, month)),
{
    let (r1, q1) = (tree_days(s, st, year, month), tree_days(u, st, year, month));
    lemma_tree_days(s, u, st, year, month);
    lemma_files(r1.0, q1.0, st.at(month_folder(st.folder(), year, month)));
    lemma_joint(s, u, r1, q1, days_found(s, st, year, month), days_found(u, st, year, month));
}

// ---------------------------------------------------------------------------
// Settings
// ---------------------------------------------------------------------------

proof fn lemma_legacy_migrated(
    s: Talk,
    u: Talk,
    config: ConfigView,
    candidates: Seq<Seq<char>>,
    any: bool,
)
    ensures
        steady(
            s,
            u,
            legacy_migrated(s, config, candidates, any),
            legacy_migrated(u, config, candidates, any),
        ),
    decreases candidates.len(), 0int,
{
    if candidates.len() > 0 {
        let path = candidates[0];
        let rest = candidates.drop_first();
        let (r1, q1) = (exists_asked(s, path), exists_asked(u, path));
        lemma_exists(s, u, path);
        let (r2, q2) = (markdown_asked(r1.0, path), markdown_asked(q1.0, path));
        lemma_markdown_asked(r1.0, q1.0, path);
        lemma_legacy_migrated(r1.0, q1.0, config, rest, any);
        if let Outcome::Got(file) = r2.1 {
            lemma_file_migrated(r2.0, q2.0, config, path, file, rest, any);
        }
        if let Outcome::Got(file) = q2.1 {
            lemma_file_migrated(q2.0, q2.0, config, path, file, rest, any);
        }
        let read = match r2.1 {
            Outcome::Got(file) => file_migrated(r2.0, config, path, file, rest, any),
            _ => (r2.0, stopped(r2.1)),
        };
        let read_again = match q2.1 {
            Outcome::Got(file) => file_migrated(q2.0, config, path, file, rest, any),
            _ => (q2.0, stopped(q2.1)),
        };
        lemma_joint(r1.0, q1.0, r2, q2, read, read_again);
        lemma_joint(
            s,
            u,
            r1,
            q1,
            legacy_migrated(s, config, candidates, any),
            legacy_migrated(u, config, candidates, any),
        );
    }
}

/// What is done with a file that was read, and with the others after it.
spec fn file_migrated(
    s: Talk,
    config: ConfigView,
    path: Seq<char>,
    file: (Seq<(Seq<char>, Field)>, Seq<char>),
    rest: Seq<Seq<char>>,
    any: bool,
) -> (Talk, Outcome<(ConfigView, bool)>) {
    let taken = legacy_taken(config, file.0);
    if taken.found {
        let (t, o) = markdown_written(s, path, taken.fields, file.1);
        match o {
            Outcome::Got(_) => legacy_migrated(t, taken.config, rest, true),
            _ => (t, stopped(o)),
        }
    } else {
        legacy_migrated(s, taken.config, rest, any)
    }
}

proof fn lemma_file_migrated(
    s: Talk,
    u: Talk,
    config: ConfigView,
    path: Seq<char>,
    file: (Seq<(Seq<char>, Field)>, Seq<char>),
    rest: Seq<Seq<char>>,
    any: bool,
)
    ensures
        steady(
            s,
            u,
            file_migrated(s, config, path, file, rest, any),
            file_migrated(u, config, path, file, rest, any),
        ),
    decreases rest.len(), 1int,
{
    let taken = legacy_taken(config, file.0);
    if taken.found {
        let r1 = markdown_written(s, path, taken.fields, file.1);
        let q1 = markdown_written(u, path, taken.fields, file.1);
        lemma_markdown_written(s, u, path, taken.fields, file.1);
        lemma_legacy_migrated(r1.0, q1.0, taken.config, rest, true);
        lemma_joint(
            s,
            u,
            r1,
            q1,
            file_migrated(s, config, path, file, rest, any),
            file_migrated(u, config, path, file, rest, any),
        );
    } else {
        lemma_legacy_migrated(s, u, taken.config, rest, any);
    }
}

proof fn lemma_taken_over(s: Talk, u: Talk, st: StateView)
    ensures
        steady(s, u, taken_over(s, st), taken_over(u, st)),
{
    if !st.config.migrated_legacy_config {
        let candidates = root_candidates(st.root);
        let r1 = legacy_migrated(s, st.config, candidates, false);
        let q1 = legacy_migrated(u, st.config, candidates, false);
        lemma_legacy_migrated(s, u, st.config, candidates, false);
        lemma_joint(s, u, r1, q1, taken_over(s, st), taken_over(u, st));
    }
}

proof fn lemma_take_over_saved(s: Talk, u: Talk, st: StateView, after: StateView)
    ensures
        steady(s, u, take_over_saved(s, st, after), take_over_saved(u, st, after)),
{
    lemma_save(s, u, storage_key(st.root), after.config);
}

/// The take-over of earlier settings can be resumed.
pub proof fn law_migration_resumed(s: Talk, u: Talk, st: StateView)
    ensures
        steady(s, u, migrated(s, st), migrated(u, st)),
{
    let (r1, q1) = (taken_over(s, st), taken_over(u, st));
    lemma_taken_over(s, u, st);
    if let Outcome::Got((after, any)) = r1.1 {
        lemma_take_over_saved(r1.0, q1.0, st, after);
    }
    if let Outcome::Got((after, any)) = q1.1 {
        lemma_take_over_saved(q1.0, q1.0, st, after);
    }
    lemma_joint(s, u, r1, q1, migrated(s, st), migrated(u, st));
}

/// Loading a workspace can be resumed.
pub proof fn law_loading_resumed(s: Talk, u: Talk, root: Option<Seq<char>>)
    ensures
        steady(s, u, workspace_loaded(s, root), workspace_loaded(u, root)),
{
    let key = storage_key(root);
    lemma_load(s, u, key);
    lemma_joint(
        s,
        u,
        load_asked(s, key),
        load_asked(u, key),
        workspace_loaded(s, root),
        workspace_loaded(u, root),
    );
}

/// Opening a workspace can be resumed.
pub proof fn law_opening_resumed(s: Talk, u: Talk, root: Option<Seq<char>>)
    ensures
        steady(s, u, root_updated(s, root), root_updated(u, root)),
{
    let (r1, q1) = (workspace_loaded(s, root), workspace_loaded(u, root));
    law_loading_resumed(s, u, root);
    if let Outcome::Got(st) = r1.1 {
        law_finishing_resumed(r1.0, q1.0, st);
    }
    if let Outcome::Got(st) = q1.1 {
        law_finishing_resumed(q1.0, q1.0, st);
    }
    lemma_joint(s, u, r1, q1, root_updated(s, root), root_updated(u, root));
}

/// Two steps one after the other where the second also follows a failure of the
/// first.
proof fn lemma_joint_anyway<A, B>(
    s: Talk,
    u: Talk,
    first: (Talk, Outcome<A>),
    first_again: (Talk, Outcome<A>),
    run: (Talk, Outcome<B>),
    rerun: (Talk, Outcome<B>),
)
    requires
        steady(s, u, first, first_again),
        first.1 !is Waiting ==> onward(first.0, run.0),
        first.1 is Waiting ==> run == (first.0, stopped::<A, B>(first.1)),
        first_again.1 !is Waiting ==> onward(first_again.0, rerun.0),
        first_again.1 is Waiting ==> rerun == (first_again.0, stopped::<A, B>(first_again.1)),
        first.1 !is Waiting && first.1 == first_again.1 && later(first.0, first_again.0)
            ==> resumed(run, rerun),
    ensures
        steady(s, u, run, rerun),
{
    if later(s, u) {
        let (s1, u1, v) = (first.0, first_again.0, rerun.0);
        assert(later(s1, u1) || first.1 is Waiting);
        if let Outcome::Waiting(ask) = first.1 {
            assert(forall|i: int| 0 <= i < s1.asked.len() ==> s1.asked[i] == #[trigger] u1.asked[i]);
            if u1.asked.len() > s1.asked.len() {
                assert(v.asked[s1.asked.len() as int] == u1.asked[s1.asked.len() as int]);
            }
        }
    }
}

/// The saves at the end of an opening.
spec fn saved_twice(s: Talk, st: StateView, after: StateView, any: bool) -> (
    Talk,
    Outcome<OpenedView>,
) {
    let (s2, o2) = take_over_saved(s, st, after);
    match o2 {
        Outcome::Got(_) => {
            let (s3, o3) = save_asked(s2, storage_key(st.root), after.config);
            opening_saved(s3, o3, st, after, any)
        },
        _ => opening_saved(s2, o2, st, after, any),
    }
}

proof fn lemma_saved_twice(s: Talk, u: Talk, st: StateView, after: StateView, any: bool)
    ensures
        steady(s, u, saved_twice(s, st, after, any), saved_twice(u, st, after, any)),
{
    let key = storage_key(st.root);
    let (r1, q1) = (take_over_saved(s, st, after), take_over_saved(u, st, after));
    lemma_take_over_saved(s, u, st, after);
    lemma_save(r1.0, q1.0, key, after.config);
    lemma_save(q1.0, q1.0, key, after.config);
    lemma_joint_anyway(
        s,
        u,
        r1,
        q1,
        saved_twice(s, st, after, any),
        saved_twice(u, st, after, any),
    );
}

/// The end of an opening can be resumed.
pub proof fn law_finishing_resumed(s: Talk, u: Talk, st: StateView)
    ensures
        steady(s, u, opening_finished(s, st), opening_finished(u, st)),
{
    let (r1, q1) = (taken_over(s, st), taken_over(u, st));
    lemma_taken_over(s, u, st);
    if let Outcome::Got((after, any)) = r1.1 {
        lemma_saved_twice(r1.0, q1.0, st, after, any);
    }
    if let Outcome::Got((after, any)) = q1.1 {
        lemma_saved_twice(q1.0, q1.0, st, after, any);
    }
    lemma_joint_anyway(s, u, r1, q1, opening_finished(s, st), opening_finished(u, st));
}

/// A change of the settings can be resumed.
pub proof fn law_config_resumed(
    s: Talk,
    u: Talk,
    st: StateView,
    params: JsonView,
    given: ConfigView,
)
    ensures
        steady(s, u, config_updated(s, st, params), config_updated(u, st, params)),
        steady(s, u, config_set(s, st, given), config_set(u, st, given)),
{
    let key = storage_key(st.root);
    let merged = config_merged(st.config, given);
    lemma_save(s, u, key, merged);
    lemma_joint(
        s,
        u,
        save_asked(s, key, merged),
        save_asked(u, key, merged),
        config_set(s, st, given),
        config_set(u, st, given),
    );
    if let Some(folder) = folder_update(params) {
        let config = ConfigView { entry_folder: folder, ..st.config };
        lemma_save(s, u, key, config);
        lemma_joint(
            s,
            u,
            save_asked(s, key, config),
            save_asked(u, key, config),
            config_updated(s, st, params),
            config_updated(u, st, params),
        );
    }
}

// ---------------------------------------------------------------------------
// Commands
// ---------------------------------------------------------------------------

proof fn lemma_date_asked(s: Talk, u: Talk, given: Option<Seq<char>>)
    ensures
        steady(s, u, date_asked(s, given), date_asked(u, given)),
{
    lemma_now(s, u);
    lemma_joint(s, u, now_asked(s), now_asked(u), date_asked(s, given), date_asked(u, given));
}

proof fn lemma_ensure_command(s: Talk, u: Talk, st: StateView, params: JsonView)
    ensures
        steady(s, u, ensure_command(s, st, params), ensure_command(u, st, params)),
{
    let given = params.text_field("date"@);
    let (r1, q1) = (date_asked(s, given), date_asked(u, given));
    lemma_date_asked(s, u, given);
    if let Outcome::Got(date) = r1.1 {
        law_entry_resumed(r1.0, q1.0, st, date);
    }
    if let Outcome::Got(date) = q1.1 {
        law_entry_resumed(q1.0, q1.0, st, date);
    }
    lemma_joint(s, u, r1, q1, ensure_command(s, st, params), ensure_command(u, st, params));
}

proof fn lemma_adjacent_command(s: Talk, u: Talk, st: StateView, params: JsonView)
    ensures
        steady(s, u, adjacent_command(s, st, params), adjacent_command(u, st, params)),
{
    if let Some(path) = params.text_field("path"@) {
        if let Some(adjacent) = adjacent_path(
            workspace_rel(path, st.root),
            asked_direction(params),
        ) {
            if let Some(date) = date_of_path(adjacent) {
                law_entry_resumed(s, u, st, date);
            }
        }
    }
}

proof fn lemma_state_command(s: Talk, u: Talk, st: StateView, params: JsonView)
    ensures
        steady(s, u, state_command(s, st, params), state_command(u, st, params)),
{
    lemma_now(s, u);
}

proof fn lemma_open_command(s: Talk, u: Talk, st: StateView, yesterday: bool)
    ensures
        steady(s, u, open_command(s, st, yesterday), open_command(u, st, yesterday)),
{
    let (r1, q1) = (now_asked(s), now_asked(u));
    lemma_now(s, u);
    if let Outcome::Got(now) = r1.1 {
        law_entry_resumed(r1.0, q1.0, st, now.date);
        law_entry_resumed(r1.0, q1.0, st, now.date.previous());
    }
    if let Outcome::Got(now) = q1.1 {
        law_entry_resumed(q1.0, q1.0, st, now.date);
        law_entry_resumed(q1.0, q1.0, st, now.date.previous());
    }
    lemma_joint(s, u, r1, q1, open_command(s, st, yesterday), open_command(u, st, yesterday));
}

/// An entry, and its text where that is asked for.
spec fn shown(s: Talk, st: StateView, params: JsonView, date: CalendarDate) -> (
    Talk,
    Outcome<JsonView>,
) {
    let (s2, o2) = entry_ensured(s, st, date);
    match o2 {
        Outcome::Got((path, created)) => if params.bool_field("print"@) == Some(true) {
            let (s3, o3) = read_asked(s2, st.at(path));
            match o3 {
                Outcome::Got(content) => (
                    s3,
                    Outcome::Got(print_reply(content, path, created)),
                ),
                _ => (s3, stopped(o3)),
            }
        } else {
            (s2, Outcome::Got(open_reply(path, created)))
        },
        _ => (s2, stopped(o2)),
    }
}

proof fn lemma_shown(s: Talk, u: Talk, st: StateView, params: JsonView, date: CalendarDate)
    ensures
        steady(s, u, shown(s, st, params, date), shown(u, st, params, date)),
{
    let (r1, q1) = (entry_ensured(s, st, date), entry_ensured(u, st, date));
    law_entry_resumed(s, u, st, date);
    if let Outcome::Got((path, created)) = r1.1 {
        lemma_read(r1.0, q1.0, st.at(path));
    }
    if let Outcome::Got((path, created)) = q1.1 {
        lemma_read(q1.0, q1.0, st.at(path));
    }
    lemma_joint(s, u, r1, q1, shown(s, st, params, date), shown(u, st, params, date));
}

proof fn lemma_cli_command(s: Talk, u: Talk, st: StateView, params: JsonView)
    ensures
        steady(s, u, cli_command(s, st, params), cli_command(u, st, params)),
{
    let given = params.text_field("date"@);
    let (r1, q1) = (date_asked(s, given), date_asked(u, given));
    lemma_date_asked(s, u, given);
    if let Outcome::Got(date) = r1.1 {
        lemma_shown(r1.0, q1.0, st, params, date);
    }
    if let Outcome::Got(date) = q1.1 {
        lemma_shown(q1.0, q1.0, st, params, date);
    }
    lemma_joint(s, u, r1, q1, cli_command(s, st, params), cli_command(u, st, params));
}

proof fn lemma_list_command(s: Talk, u: Talk, st: StateView, params: JsonView)
    ensures
        steady(s, u, list_command(s, st, params), list_command(u, st, params)),
{
    if params.int_field("year"@) is Some && params.int_field("month"@) is Some {
        let year = params.int_field("year"@)->0 as i64 as i32;
        let month = params.int_field("month"@)->0 as i64 as u32;
        let r1 = days_found(s, st, year as int, month as nat);
        let q1 = days_found(u, st, year as int, month as nat);
        lemma_days_found(s, u, st, year as int, month as nat);
        if 1 <= month <= 12 {
            lemma_joint(s, u, r1, q1, list_command(s, st, params), list_command(u, st, params));
        }
    }
}

/// A command can be resumed.
pub proof fn law_command_resumed(
    s: Talk,
    u: Talk,
    st: StateView,
    command: Seq<char>,
    params: JsonView,
    panel: Seq<char>,
)
    ensures
        steady(
            s,
            u,
            plain_command(s, st, command, params, panel),
            plain_command(u, st, command, params, panel),
        ),
{
    lemma_ensure_command(s, u, st, params);
    lemma_adjacent_command(s, u, st, params);
    lemma_state_command(s, u, st, params);
    lemma_open_command(s, u, st, false);
    lemma_open_command(s, u, st, true);
    lemma_cli_command(s, u, st, params);
    lemma_list_command(s, u, st, params);
}

proof fn lemma_import_date(s: Talk, u: Talk, st: StateView, entry: JsonView, rel: Seq<char>)
    ensures
        steady(s, u, import_date(s, st, entry, rel), import_date(u, st, entry, rel)),
{
    let (r1, q1) = (now_asked(s), now_asked(u));
    lemma_now(s, u);
    lemma_date_inferred(r1.0, q1.0, st, rel);
    lemma_joint(s, u, r1, q1, import_date(s, st, entry, rel), import_date(u, st, entry, rel));
}

proof fn lemma_import_linked(s: Talk, u: Talk, st: StateView, rel: Seq<char>, daily: Seq<char>)
    ensures
        steady(s, u, import_linked(s, st, rel, daily), import_linked(u, st, rel, daily)),
{
    let (r1, q1) = (parent_set(s, st, rel, daily), parent_set(u, st, rel, daily));
    lemma_parent_set(s, u, st, rel, daily);
    lemma_contents_added(r1.0, q1.0, st, daily, rel);
    if later(s, u) {
        if let Outcome::Waiting(ask) = r1.1 {
            let n = r1.0.asked.len() as int;
            let v = import_linked(u, st, rel, daily).0;
            if q1.0.asked.len() > n {
                assert(v.asked[n] == q1.0.asked[n]);
            }
        }
    }
}

/// An entry of an import once its date is known.
spec fn import_rest(s: Talk, st: StateView, rel: Seq<char>, dry_run: bool, date: CalendarDate) -> (
    Talk,
    Outcome<ImportView>,
) {
    let (s2, o2) = entry_ensured(s, st, date);
    match o2 {
        Outcome::Got((daily, _)) => if dry_run {
            (s2, Outcome::Got(ImportView::Done))
        } else {
            import_linked(s2, st, rel, daily)
        },
        Outcome::Failed(e) => (s2, Outcome::Got(import_failed(rel, e))),
        Outcome::Waiting(ask) => (s2, Outcome::Waiting(ask)),
    }
}

proof fn lemma_import_rest(
    s: Talk,
    u: Talk,
    st: StateView,
    rel: Seq<char>,
    dry_run: bool,
    date: CalendarDate,
)
    ensures
        steady(s, u, import_rest(s, st, rel, dry_run, date), import_rest(u, st, rel, dry_run, date)),
{
    let (r1, q1) = (entry_ensured(s, st, date), entry_ensured(u, st, date));
    law_entry_resumed(s, u, st, date);
    if let Outcome::Got((daily, _)) = r1.1 {
        lemma_import_linked(r1.0, q1.0, st, rel, daily);
    }
    if let Outcome::Got((daily, _)) = q1.1 {
        lemma_import_linked(q1.0, q1.0, st, rel, daily);
    }
    if later(s, u) {
        if let Outcome::Waiting(ask) = r1.1 {
            let n = r1.0.asked.len() as int;
            let v = import_rest(u, st, rel, dry_run, date).0;
            if q1.0.asked.len() > n {
                assert(v.asked[n] == q1.0.asked[n]);
            }
        }
    }
}

/// The import of an entry can be resumed.
pub proof fn law_import_resumed(s: Talk, u: Talk, st: StateView, entry: JsonView, dry_run: bool)
    ensures
        steady(s, u, entry_imported(s, st, entry, dry_run), entry_imported(u, st, entry, dry_run)),
{
    let rel = workspace_rel(import_path(entry), st.root);
    if trimmed(import_path(entry)).len() > 0 {
        let (r1, q1) = (import_date(s, st, entry, rel), import_date(u, st, entry, rel));
        lemma_import_date(s, u, st, entry, rel);
        if let Outcome::Got(Ok(date)) = r1.1 {
            lemma_import_rest(r1.0, q1.0, st, rel, dry_run, date);
        }
        if let Outcome::Got(Ok(date)) = q1.1 {
            lemma_import_rest(q1.0, q1.0, st, rel, dry_run, date);
        }
        lemma_joint(
            s,
            u,
            r1,
            q1,
            entry_imported(s, st, entry, dry_run),
            entry_imported(u, st, entry, dry_run),
        );
    }
}

} // verus!
