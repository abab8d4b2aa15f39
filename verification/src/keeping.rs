//! What is never lost: a file that cannot be read is never written, and an imported file
//! keeps what it holds.

use vstd::prelude::*;

use crate::commands::{entry_imported, ImportView};
use crate::daily_logic::{paths_of, rendered};
use crate::date::{year_text, CalendarDate, LocalDateTime};
use crate::entries::{
    contents_added, entry_created, entry_ensured, entry_title, first_existing, index_body,
    index_ensured, index_fields, indexes_ensured, indexes_linked, markdown_asked, markdown_written,
    month_title, parent_reference, parent_set, root_linked, template_found, StateView,
};
use crate::files::{
    date_places, files_now, law_contents_added, law_entry_ensured, law_index_ensured,
    law_parent_set, lemma_entry_created, lemma_exists, lemma_first_existing, lemma_indexes_linked,
    lemma_markdown_asked, lemma_markdown_written, lemma_now, lemma_template_found, lemma_write,
    names_file, rewritten, same_file, truthful, Files,
};
use crate::frontmatter::{markdown_reading, sequence_of, text_list, with_field, Field};
use crate::importing::{
    gives_path, import_dated, import_told, lemma_ensured_path, lemma_import_shape,
    lemma_import_told,
};
use crate::json::JsonView;
use crate::session::{exists_asked, now_asked, Outcome, Talk};
use crate::text::trimmed;
use crate::workspace::{reference, root_rel_candidates, settled};

verus! {

/// Whether a file that is there and cannot be read is as before.
pub open spec fn kept_at(a: Files, b: Files, path: Seq<char>) -> bool {
    a.dom().contains(path) && markdown_reading(a[path]) is Err ==> b.dom().contains(path) && b[path]
        == a[path]
}

/// Whether this is so of every file.
pub open spec fn unreadable_kept(a: Files, b: Files) -> bool {
    forall|path: Seq<char>| #[trigger] kept_at(a, b, path)
}

proof fn lemma_kept_on(a: Files, b: Files, c: Files)
    requires
        unreadable_kept(a, b),
        unreadable_kept(b, c),
    ensures
        unreadable_kept(a, c),
{
    assert forall|path: Seq<char>| #[trigger] kept_at(a, c, path) by {
        assert(kept_at(a, b, path));
        assert(kept_at(b, c, path));
    }
}

/// Writing to a file that could be read before.
proof fn lemma_kept_write(
    files: Files,
    s: Talk,
    path: Seq<char>,
    fields: Seq<(Seq<char>, Field)>,
    body: Seq<char>,
)
    requires
        !files_now(files, s).dom().contains(path) || markdown_reading(
            files_now(files, s)[path],
        ) is Ok,
    ensures
        unreadable_kept(
            files_now(files, s),
            files_now(files, markdown_written(s, path, fields, body).0),
        ),
{
    lemma_markdown_written(files, s, path, fields, body, Set::empty().insert(path));
}

proof fn lemma_kept_added(files: Files, s: Talk, st: StateView, index: Seq<char>, child: Seq<char>)
    requires
        truthful(files, contents_added(s, st, index, child).0),
    ensures
        unreadable_kept(
            files_now(files, s),
            files_now(files, contents_added(s, st, index, child).0),
        ),
{
    let path = st.at(index);
    let (s1, o1) = markdown_asked(s, path);
    lemma_markdown_asked(files, s, path, Set::empty());
    if let Outcome::Got(file) = o1 {
        let contents = sequence_of(file.0, "contents"@);
        let fields = with_field(
            file.0,
            "contents"@,
            text_list(contents.push(reference(index, child))),
        );
        lemma_markdown_written(files, s1, path, fields, file.1, Set::empty().insert(path));
        lemma_kept_write(files, s1, path, fields, file.1);
    }
}

proof fn lemma_kept_parent(files: Files, s: Talk, st: StateView, child: Seq<char>, parent: Seq<char>)
    requires
        truthful(files, parent_set(s, st, child, parent).0),
    ensures
        unreadable_kept(files_now(files, s), files_now(files, parent_set(s, st, child, parent).0)),
{
    let path = st.at(child);
    let (s1, o1) = markdown_asked(s, path);
    lemma_markdown_asked(files, s, path, Set::empty());
    if let Outcome::Got(file) = o1 {
        let fields = with_field(file.0, "part_of"@, Field::Text(reference(child, parent)));
        lemma_markdown_written(files, s1, path, fields, file.1, Set::empty().insert(path));
        lemma_kept_write(files, s1, path, fields, file.1);
    }
}

proof fn lemma_kept_index(
    files: Files,
    s: Talk,
    st: StateView,
    rel: Seq<char>,
    title: Seq<char>,
    description: Option<Seq<char>>,
    parent: Option<Seq<char>>,
)
    requires
        truthful(files, index_ensured(s, st, rel, title, description, parent).0),
    ensures
        unreadable_kept(
            files_now(files, s),
            files_now(files, index_ensured(s, st, rel, title, description, parent).0),
        ),
{
    let path = st.at(rel);
    let part_of = parent_reference(rel, parent);
    let (s1, o1) = exists_asked(s, path);
    lemma_exists(files, s, path, Set::empty());
    match o1 {
        Outcome::Got(true) => {
            let (s2, o2) = markdown_asked(s1, path);
            lemma_markdown_asked(files, s1, path, Set::empty());
            if let Outcome::Got(file) = o2 {
                let fields = index_fields(file.0, title, description, part_of).0;
                let body = index_body(file.1, title);
                lemma_markdown_written(files, s2, path, fields, body, Set::empty().insert(path));
                lemma_kept_write(files, s2, path, fields, body);
            }
        },
        Outcome::Got(false) => {
            let fields = index_fields(Seq::empty(), title, description, part_of).0;
            let body = index_body(Seq::empty(), title);
            lemma_markdown_written(files, s1, path, fields, body, Set::empty().insert(path));
            lemma_kept_write(files, s1, path, fields, body);
        },
        _ => {},
    }
}

proof fn lemma_kept_indexes(
    files: Files,
    s: Talk,
    st: StateView,
    date: CalendarDate,
    root_index: Option<Seq<char>>,
)
    requires
        truthful(files, indexes_ensured(s, st, date, root_index).0),
    ensures
        unreadable_kept(
            files_now(files, s),
            files_now(files, indexes_ensured(s, st, date, root_index).0),
        ),
{
    let paths = paths_of(st.folder(), date);
    let (d, y, m) = (paths.daily_index, paths.year_index, paths.month_index);
    let about = Some("Date-based daily entry hierarchy"@);
    let year = year_text(date.year as int);
    let month = month_title(date);
    let (s1, o1) = index_ensured(s, st, d, "Daily Index"@, about, root_index);
    let (s2, o2) = index_ensured(s1, st, y, year, None, Some(d));
    let (s3, o3) = index_ensured(s2, st, m, month, None, Some(y));
    law_index_ensured(files, s1, st, y, year, None, Some(d));
    law_index_ensured(files, s2, st, m, month, None, Some(y));
    lemma_kept_index(files, s, st, d, "Daily Index"@, about, root_index);
    if o1 is Got {
        lemma_kept_index(files, s1, st, y, year, None, Some(d));
        lemma_kept_on(files_now(files, s), files_now(files, s1), files_now(files, s2));
        if o2 is Got {
            lemma_kept_index(files, s2, st, m, month, None, Some(y));
            lemma_kept_on(files_now(files, s), files_now(files, s2), files_now(files, s3));
        }
    }
}

proof fn lemma_kept_linked(
    files: Files,
    s: Talk,
    st: StateView,
    date: CalendarDate,
    root_index: Option<Seq<char>>,
)
    requires
        truthful(files, indexes_linked(s, st, date, root_index).0),
    ensures
        unreadable_kept(
            files_now(files, s),
            files_now(files, indexes_linked(s, st, date, root_index).0),
        ),
{
    let paths = paths_of(st.folder(), date);
    let (d, y, m) = (paths.daily_index, paths.year_index, paths.month_index);
    let (s1, o1) = root_linked(s, st, d, root_index);
    let (s2, o2) = contents_added(s1, st, d, y);
    let (s3, o3) = contents_added(s2, st, y, m);
    law_contents_added(files, s1, st, d, y);
    law_contents_added(files, s2, st, y, m);
    let (f0, f1, f2, f3) = (
        files_now(files, s),
        files_now(files, s1),
        files_now(files, s2),
        files_now(files, s3),
    );
    if root_index is Some && root_index != Some(d) {
        lemma_kept_added(files, s, st, root_index->0, d);
    }
    assert(unreadable_kept(f0, f1));
    if o1 is Got {
        lemma_kept_added(files, s1, st, d, y);
        lemma_kept_on(f0, f1, f2);
        if o2 is Got {
            lemma_kept_added(files, s2, st, y, m);
            lemma_kept_on(f0, f2, f3);
        }
    }
}

proof fn lemma_kept_created(files: Files, s: Talk, st: StateView, date: CalendarDate)
    requires
        truthful(files, entry_created(s, st, date).0),
    ensures
        unreadable_kept(files_now(files, s), files_now(files, entry_created(s, st, date).0)),
{
    let paths = paths_of(st.folder(), date);
    let place = st.at(paths.entry);
    let touched = Set::empty().insert(place);
    let (s1, o1) = exists_asked(s, place);
    let t = entry_created(s, st, date).0;
    lemma_exists(files, s, place, touched);
    lemma_entry_created(files, s, st, date);
    if o1 == Outcome::Got(false) {
        let (s2, o2) = template_found(s1, st);
        lemma_template_found(files, s1, st, touched);
        if let Outcome::Got(template) = o2 {
            let (s3, o3) = now_asked(s2);
            lemma_now(files, s2, touched);
            if let Outcome::Got(now) = o3 {
                let text = rendered(
                    template,
                    entry_title(date),
                    date,
                    reference(paths.entry, paths.month_index),
                    now,
                );
                lemma_write(files, s3, place, text, touched);
            }
        }
        assert(!files_now(files, s).dom().contains(place));
    }
    assert forall|path: Seq<char>| #[trigger] kept_at(
        files_now(files, s),
        files_now(files, t),
        path,
    ) by {
        if path != place {
            assert(same_file(files_now(files, s), files_now(files, t), path));
        }
    }
}

/// Seeing to the entry of a date never writes to a file that is there and cannot be
/// read, whether it comes to an end or fails.
pub proof fn law_unreadable_kept(files: Files, s: Talk, st: StateView, date: CalendarDate)
    requires
        truthful(files, entry_ensured(s, st, date).0),
    ensures
        unreadable_kept(files_now(files, s), files_now(files, entry_ensured(s, st, date).0)),
{
    let paths = paths_of(st.folder(), date);
    let (m, e) = (paths.month_index, paths.entry);
    let candidates = root_rel_candidates(st.root);
    let (s1, o1) = first_existing(s, st, candidates);
    lemma_first_existing(files, s, st, candidates, Set::empty());
    let root_index = o1->Got_0;
    let (s2, o2) = indexes_ensured(s1, st, date, root_index);
    let (s3, o3) = indexes_linked(s2, st, date, root_index);
    let (s4, o4) = entry_created(s3, st, date);
    let (s5, o5) = parent_set(s4, st, e, m);
    let (s6, o6) = contents_added(s5, st, m, e);
    let (f0, f2, f3, f4, f5, f6) = (
        files_now(files, s),
        files_now(files, s2),
        files_now(files, s3),
        files_now(files, s4),
        files_now(files, s5),
        files_now(files, s6),
    );
    if o1 is Got {
        if o2 is Got {
            lemma_indexes_linked(files, s2, st, date, root_index);
            if o3 is Got {
                lemma_entry_created(files, s3, st, date);
                if o4 is Got {
                    law_parent_set(files, s4, st, e, m);
                    if o5 is Got {
                        law_contents_added(files, s5, st, m, e);
                    }
                }
            }
        }
        lemma_kept_indexes(files, s1, st, date, root_index);
        if o2 is Got {
            lemma_kept_linked(files, s2, st, date, root_index);
            lemma_kept_on(f0, f2, f3);
            if o3 is Got {
                lemma_kept_created(files, s3, st, date);
                lemma_kept_on(f0, f3, f4);
                if o4 is Got {
                    lemma_kept_parent(files, s4, st, e, m);
                    lemma_kept_on(f0, f4, f5);
                    if o5 is Got {
                        lemma_kept_added(files, s5, st, m, e);
                        lemma_kept_on(f0, f5, f6);
                    }
                }
            }
        }
    }
}

/// An import that is done changes nothing of the file but its parent, unless the file is
/// one of those that belong to the date; a dry run does not change it at all.
pub proof fn law_import_keeps(
    files: Files,
    s: Talk,
    st: StateView,
    entry: JsonView,
    dry_run: bool,
    path: Seq<char>,
    rel: Seq<char>,
    now: LocalDateTime,
    date: CalendarDate,
)
    requires
        date.valid(),
        settled(rel),
        trimmed(path).len() > 0,
        gives_path(entry, path) && names_file(path, rel, st),
        import_dated(s, st, entry, rel, now, date),
        !date_places(st, date).contains(st.at(rel)),
        entry_imported(s, st, entry, dry_run).1 == Outcome::Got(ImportView::Done),
        truthful(files, entry_imported(s, st, entry, dry_run).0),
    ensures
        ({
            let (then, after) = (
                files_now(files, s),
                files_now(files, entry_imported(s, st, entry, dry_run).0),
            );
            if dry_run {
                same_file(then, after, st.at(rel))
            } else {
                &&& then.dom().contains(st.at(rel)) && after.dom().contains(st.at(rel))
                &&& rewritten(
                    then[st.at(rel)],
                    after[st.at(rel)],
                    reference(rel, paths_of(st.folder(), date).entry),
                )
            }
        }),
{
    let place = st.at(rel);
    let daily = paths_of(st.folder(), date).entry;
    let few = date_places(st, date);
    let s1 = import_told(s, st, entry, rel);
    let (s2, o2) = entry_ensured(s1, st, date);
    lemma_import_shape(s, st, entry, dry_run, path, rel, now, date);
    lemma_import_told(files, s, st, entry, rel, now, date);
    lemma_ensured_path(s1, st, date);
    law_entry_ensured(files, s1, st, date);
    assert(same_file(files_now(files, s), files_now(files, s1), place));
    assert(same_file(files_now(files, s1), files_now(files, s2), place));
    if !dry_run {
        assert(few.contains(st.at(daily)));
        let (s3, o3) = parent_set(s2, st, rel, daily);
        law_parent_set(files, s2, st, rel, daily);
        let (s4, o4) = contents_added(s3, st, daily, rel);
        law_contents_added(files, s3, st, daily, rel);
        assert(same_file(files_now(files, s3), files_now(files, s4), place));
    }
}

} // verus!
