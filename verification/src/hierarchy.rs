//! What the index files above an entry say, and which root index they hang from.

use vstd::prelude::*;

use crate::daily_logic::paths_of;
use crate::date::{month_name, year_text, CalendarDate};
use crate::entries::{
    contents_added, entry_created, entry_ensured, first_existing, index_body, index_ensured,
    index_fields, index_to_write, indexes_ensured, indexes_linked, markdown_asked, month_title,
    parent_reference, parent_set, StateView,
};
use crate::files::{
    file_at, files_now, law_contents_added, law_index_ensured, law_parent_set,
    lemma_added_link, lemma_created_links, lemma_entry_apart, lemma_entry_created, lemma_exists,
    lemma_first_existing, lemma_index_reads, lemma_indexes_apart, lemma_indexes_linked,
    lemma_links_down, lemma_links_kept, lemma_parent_link, lemma_writings_before,
    lemma_written_reads, links_kept, links_kept_at, root_found, root_places, same_file, truthful,
    writings_read, Files,
};
use crate::frontmatter::{lookup, text_of, Field};
use crate::session::{exists_asked, Outcome, Talk};
use crate::text::trimmed;
use crate::workspace::{root_rel_candidates, root_scope};

verus! {

/// Whether a file can be read, and one of its fields is this text.
pub open spec fn has_text(files: Files, path: Seq<char>, key: Seq<char>, value: Seq<char>) -> bool {
    file_at(files, path) matches Some(file) && text_of(file.0, key) == Some(value)
}

proof fn lemma_text_kept(
    a: Files,
    b: Files,
    but: Seq<char>,
    path: Seq<char>,
    key: Seq<char>,
    value: Seq<char>,
)
    requires
        links_kept(a, b, but),
        has_text(a, path, key, value),
        key != "contents"@,
        path != but,
    ensures
        has_text(b, path, key, value),
{
    assert(links_kept_at(a, b, but, path));
    let (was, file) = (file_at(a, path)->0, file_at(b, path)->0);
    assert(lookup(file.0, key) == lookup(was.0, key));
}

/// Seeing to an index file gives it its title and its description.
proof fn lemma_index_texts(
    files: Files,
    s: Talk,
    st: StateView,
    rel: Seq<char>,
    title: Seq<char>,
    description: Option<Seq<char>>,
    parent: Option<Seq<char>>,
)
    requires
        truthful(files, index_ensured(s, st, rel, title, description, parent).0),
        index_ensured(s, st, rel, title, description, parent).1 is Got,
        writings_read(index_ensured(s, st, rel, title, description, parent).0),
    ensures
        ({
            let now = files_now(files, index_ensured(s, st, rel, title, description, parent).0);
            &&& has_text(now, st.at(rel), "title"@, title)
            &&& description matches Some(d) ==> has_text(now, st.at(rel), "description"@, d)
        }),
{
    let path = st.at(rel);
    let part_of = parent_reference(rel, parent);
    let (s1, o1) = exists_asked(s, path);
    let (from, file, found) = if o1 == Outcome::Got(true) {
        let (s2, o2) = markdown_asked(s1, path);
        (s2, o2->Got_0, true)
    } else {
        (s1, (Seq::<(Seq<char>, Field)>::empty(), Seq::<char>::empty()), false)
    };
    let fields = index_fields(file.0, title, description, part_of).0;
    let body = index_body(file.1, title);
    if index_to_write(s, st, rel, title, description, parent) is Some {
        assert(index_to_write(s, st, rel, title, description, parent) == Some((fields, body)));
        lemma_written_reads(from, path, fields, body);
    }
    lemma_index_reads(files, s, st, rel, title, description, parent);
}

/// What the index files of a date say.
pub open spec fn indexes_titled(files: Files, st: StateView, date: CalendarDate) -> bool {
    let paths = paths_of(st.folder(), date);
    &&& has_text(files, st.at(paths.daily_index), "title"@, "Daily Index"@)
    &&& has_text(
        files,
        st.at(paths.daily_index),
        "description"@,
        "Date-based daily entry hierarchy"@,
    )
    &&& has_text(files, st.at(paths.year_index), "title"@, year_text(date.year as int))
    &&& has_text(
        files,
        st.at(paths.month_index),
        "title"@,
        month_name(date.month as int) + " "@ + year_text(date.year as int),
    )
}

proof fn lemma_indexes_titled(
    files: Files,
    s: Talk,
    st: StateView,
    date: CalendarDate,
    root_index: Option<Seq<char>>,
)
    requires
        date.valid(),
        truthful(files, indexes_ensured(s, st, date, root_index).0),
        indexes_ensured(s, st, date, root_index).1 is Got,
        writings_read(indexes_ensured(s, st, date, root_index).0),
    ensures
        indexes_titled(files_now(files, indexes_ensured(s, st, date, root_index).0), st, date),
{
    let paths = paths_of(st.folder(), date);
    let (d, y, m) = (paths.daily_index, paths.year_index, paths.month_index);
    let about = Some("Date-based daily entry hierarchy"@);
    let year = year_text(date.year as int);
    let month = month_title(date);
    let (s1, o1) = index_ensured(s, st, d, "Daily Index"@, about, root_index);
    let (s2, o2) = index_ensured(s1, st, y, year, None, Some(d));
    let (s3, o3) = index_ensured(s2, st, m, month, None, Some(y));
    lemma_indexes_apart(st, date);
    law_index_ensured(files, s1, st, y, year, None, Some(d));
    law_index_ensured(files, s2, st, m, month, None, Some(y));
    lemma_writings_before(files, s2, s3, Set::empty().insert(st.at(m)));
    lemma_writings_before(files, s1, s2, Set::empty().insert(st.at(y)));
    lemma_index_texts(files, s, st, d, "Daily Index"@, about, root_index);
    lemma_index_texts(files, s1, st, y, year, None, Some(d));
    lemma_index_texts(files, s2, st, m, month, None, Some(y));
    assert(same_file(files_now(files, s1), files_now(files, s2), st.at(d)));
    assert(same_file(files_now(files, s2), files_now(files, s3), st.at(d)));
    assert(same_file(files_now(files, s2), files_now(files, s3), st.at(y)));
}

/// Seeing to the entry of a date leaves index files with their titles, where what is
/// written reads as it was written: the daily index is the `Daily Index`, with its
/// description; the year index has the year, the month index the month and the year.
pub proof fn law_indexes_titled(files: Files, s: Talk, st: StateView, date: CalendarDate)
    requires
        date.valid(),
        truthful(files, entry_ensured(s, st, date).0),
        entry_ensured(s, st, date).1 is Got,
        writings_read(entry_ensured(s, st, date).0),
    ensures
        indexes_titled(files_now(files, entry_ensured(s, st, date).0), st, date),
{
    reveal_strlit("title");
    reveal_strlit("description");
    reveal_strlit("contents");
    assert("title"@.len() == 5 && "description"@.len() == 11 && "contents"@.len() == 8);
    let paths = paths_of(st.folder(), date);
    let (d, y, m, e) = (paths.daily_index, paths.year_index, paths.month_index, paths.entry);
    let place = st.at(e);
    let candidates = root_rel_candidates(st.root);
    lemma_entry_apart(st, date);
    let (s1, o1) = first_existing(s, st, candidates);
    lemma_first_existing(files, s, st, candidates, Set::empty());
    let root_index = o1->Got_0;
    let (s2, o2) = indexes_ensured(s1, st, date, root_index);
    let (s3, o3) = indexes_linked(s2, st, date, root_index);
    let (s4, o4) = entry_created(s3, st, date);
    let (s5, o5) = parent_set(s4, st, e, m);
    let (s6, o6) = contents_added(s5, st, m, e);
    let linked = root_places(st).insert(st.at(d)).insert(st.at(y));
    lemma_indexes_linked(files, s2, st, date, root_index);
    lemma_entry_created(files, s3, st, date);
    law_parent_set(files, s4, st, e, m);
    law_contents_added(files, s5, st, m, e);
    lemma_writings_before(files, s5, s6, Set::empty().insert(st.at(m)));
    lemma_writings_before(files, s4, s5, Set::empty().insert(place));
    lemma_writings_before(files, s3, s4, Set::empty().insert(place));
    lemma_writings_before(files, s2, s3, linked);
    let (f2, f3, f4, f5, f6) = (
        files_now(files, s2),
        files_now(files, s3),
        files_now(files, s4),
        files_now(files, s5),
        files_now(files, s6),
    );
    lemma_indexes_titled(files, s1, st, date, root_index);
    lemma_links_down(files, s2, st, date, root_index, place);
    lemma_created_links(files, s3, st, date, place);
    lemma_parent_link(files, s4, st, e, m);
    lemma_added_link(files, s5, st, m, e, place);
    lemma_links_kept(f3, f4, f5, place);
    lemma_links_kept(f3, f5, f6, place);
    lemma_links_kept(f2, f3, f6, place);
    let year = year_text(date.year as int);
    lemma_text_kept(f2, f6, place, st.at(d), "title"@, "Daily Index"@);
    lemma_text_kept(
        f2,
        f6,
        place,
        st.at(d),
        "description"@,
        "Date-based daily entry hierarchy"@,
    );
    lemma_text_kept(f2, f6, place, st.at(y), "title"@, year);
    lemma_text_kept(
        f2,
        f6,
        place,
        st.at(m),
        "title"@,
        month_name(date.month as int) + " "@ + year,
    );
}

/// An index file that has no body gets its title as a heading; any other body stays.
pub proof fn law_index_body(body: Seq<char>, title: Seq<char>)
    ensures
        trimmed(body).len() == 0 ==> index_body(body, title) == "\n# "@ + title + "\n"@,
        trimmed(body).len() > 0 ==> index_body(body, title) == body,
{
}

/// The root index is the first that is there: the root where it is a Markdown file other
/// than `README.md`, by its name or path, and else `README.md`. There is none where
/// neither is there.
pub proof fn law_root_found(files: Files, s: Talk, st: StateView)
    requires
        truthful(files, first_existing(s, st, root_rel_candidates(st.root)).0),
        first_existing(s, st, root_rel_candidates(st.root)).1 is Got,
    ensures
        ({
            let there = files_now(files, s).dom();
            let own = root_scope(st.root);
            let found = root_found(s, st);
            if st.root is Some && ".md"@.is_suffix_of(st.root->0) && there.contains(st.at(own)) {
                found == Some(own)
            } else if there.contains(st.at("README.md"@)) {
                found == Some("README.md"@)
            } else {
                found is None
            }
        }),
{
    let candidates = root_rel_candidates(st.root);
    let (s1, o1) = exists_asked(s, st.at(candidates[0]));
    lemma_exists(files, s, st.at(candidates[0]), Set::empty());
    reveal_with_fuel(first_existing, 3);
    if candidates.len() > 1 {
        let rest = candidates.drop_first();
        assert(rest =~= seq!["README.md"@]);
        lemma_exists(files, s1, st.at(rest[0]), Set::empty());
        lemma_first_existing(files, s1, st, rest, Set::empty());
        assert(rest.drop_first() =~= Seq::empty());
    } else {
        assert(candidates =~= seq!["README.md"@]);
        assert(candidates.drop_first() =~= Seq::empty());
    }
}

} // verus!
