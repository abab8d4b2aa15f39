//! What the operations do to the files of a workspace.
//!
//! A host is truthful about some files when its replies say what they hold, and
//! what was written to them since. It may always reply with an error; a file that
//! could not be written is as before.

use vstd::prelude::*;

use crate::commands::{
    cli_command, command_run, date_asked, law_days_reply, law_entry_reply, law_open_reply, law_path_reply,
    law_print_reply, law_state_replies, print_reply, ProgressView,
};
use crate::daily_logic::{
    any_input_date, date_of_path, default_template, entry_path, input_text, law_base_folder,
    law_date_of_path, law_effective_folder, law_entry_date, lemma_slug_letters, path_parts, paths_of,
    rendered, scoped, ConfigView,
};
use crate::date::{
    iso_text, law_next_day, law_number_identifies, law_number_range, law_previous_day,
    moment_reading, month_slug, two_digits, year_text, CalendarDate, LocalDateTime,
};
use crate::entries::{
    contents_added, contents_to_write, entry_created, entry_ensured, entry_linked, entry_title,
    first_existing, index_body, index_ensured, index_fields, index_settled, index_to_write,
    indexes_ensured, indexes_linked, markdown_asked, markdown_written, month_title,
    parent_reference, parent_set, reads_again, root_linked, settled_field, template_found,
    template_path, writes_plain, StateView,
};
use crate::frontmatter::{
    law_plain_fields, law_set_field, law_text_list, lookup, markdown_reading, markdown_text, plain,
    plain_fields, plain_items, plain_scalar, plain_value, reads_as, sequence_of, strings_of, text_list,
    text_of, with_field, Field,
};
use crate::json::JsonView;
use crate::listing::{
    days_found, filed_days, first_of_month, first_of_year, is_day, law_filed_days,
    days_up_to, law_listed_days, lemma_days_up_to, listed_date, month_folder, month_index_found, resolved,
    tree_days,
};
use crate::paths::{parent_of, path_joined};
use crate::session::{
    exists_asked, files_asked, now_asked, read_asked, save_asked, write_asked, Answer, Ask,
    Outcome, Talk,
};
use crate::settings::{legacy_migrated, legacy_taken, migrated};
use crate::text::{
    char_replaced, joined, lemma_not_blank, lemma_padded_digits, numeral, occurs, signed_numeral, slashes,
    trimmed, without_front, without_prefixes,
};
use crate::workspace::{
    folder_root, law_fs_path_round_trip, law_rel_path_relative, link_target, reference, rel_path,
    root_candidates, root_rel_candidates, settled, storage_key, workspace_rel,
};

verus! {

/// The texts of files by their paths.
pub type Files = Map<Seq<char>, Seq<char>>;

/// Whether a reply is true of the files, or an error.
pub open spec fn true_answer(files: Files, ask: Ask, answer: Answer) -> bool {
    match (ask, answer) {
        (Ask::Exists(path), Answer::Exists(Ok(b))) => b == files.dom().contains(path),
        (Ask::Read(path), Answer::Content(Ok(text))) => files.dom().contains(path) && files[path]
            == text,
        (Ask::Files(prefix), Answer::Files(Ok(list))) => forall|path: Seq<char>|
            #![trigger list.contains(path)]
            files.dom().contains(path) && prefix.is_prefix_of(path) ==> list.contains(path),
        _ => true,
    }
}

/// The files after a request and its reply.
pub open spec fn files_after(files: Files, ask: Ask, answer: Answer) -> Files {
    match (ask, answer) {
        (Ask::Write(path, text), Answer::Done(Ok(_))) => files.insert(path, text),
        _ => files,
    }
}

/// The files after the requests of a session.
pub open spec fn files_now(files: Files, s: Talk) -> Files
    decreases s.asked.len(),
{
    if s.asked.len() == 0 {
        files
    } else {
        files_after(
            files_now(files, before(s)),
            s.asked.last(),
            s.replies[s.asked.len() - 1],
        )
    }
}

/// Whether all replies of a session were true when they came.
pub open spec fn truthful(files: Files, s: Talk) -> bool
    decreases s.asked.len(),
{
    s.asked.len() == 0 || (truthful(files, before(s)) && true_answer(
        files_now(files, before(s)),
        s.asked.last(),
        s.replies[s.asked.len() - 1],
    ))
}

/// A session before its last request.
pub open spec fn before(s: Talk) -> Talk {
    Talk { replies: s.replies, asked: s.asked.drop_last() }
}

/// Whether a file is the same in both.
pub open spec fn same_file(a: Files, b: Files, path: Seq<char>) -> bool {
    a.dom().contains(path) == b.dom().contains(path) && (a.dom().contains(path) ==> a[path]
        == b[path])
}

/// Whether `t` goes on from `s`: it has asked the same so far, no file was removed
/// and none changed but those in `touched`; if the host was truthful up to `t`, it
/// was up to `s`.
pub open spec fn goes_on(files: Files, s: Talk, t: Talk, touched: Set<Seq<char>>) -> bool {
    &&& s.replies == t.replies
    &&& s.asked.len() <= t.asked.len() && s.asked == t.asked.take(s.asked.len() as int)
    &&& truthful(files, t) ==> truthful(files, s)
    &&& forall|path: Seq<char>|
        #![trigger files_now(files, t).dom().contains(path)]
        files_now(files, s).dom().contains(path) ==> files_now(files, t).dom().contains(path)
    &&& forall|path: Seq<char>|
        #![trigger same_file(files_now(files, s), files_now(files, t), path)]
        !touched.contains(path) ==> same_file(files_now(files, s), files_now(files, t), path)
}

pub(crate) proof fn lemma_here(files: Files, s: Talk, touched: Set<Seq<char>>)
    ensures
        goes_on(files, s, s, touched),
{
    assert(s.asked.take(s.asked.len() as int) =~= s.asked);
}

pub(crate) proof fn lemma_then(files: Files, s: Talk, t: Talk, u: Talk, touched: Set<Seq<char>>)
    requires
        goes_on(files, s, t, touched),
        goes_on(files, t, u, touched),
    ensures
        goes_on(files, s, u, touched),
{
    let (a, b, c) = (files_now(files, s), files_now(files, t), files_now(files, u));
    assert(u.asked.take(s.asked.len() as int) =~= t.asked.take(s.asked.len() as int));
    assert forall|path: Seq<char>| #![trigger c.dom().contains(path)] a.dom().contains(
        path,
    ) implies c.dom().contains(path) by {
        assert(b.dom().contains(path));
    }
    assert forall|path: Seq<char>|
        #![trigger same_file(a, c, path)]
        !touched.contains(path) implies same_file(a, c, path) by {
        assert(same_file(a, b, path));
        assert(same_file(b, c, path));
    }
}

pub(crate) proof fn lemma_wider(
    files: Files,
    s: Talk,
    t: Talk,
    touched: Set<Seq<char>>,
    more: Set<Seq<char>>,
)
    requires
        goes_on(files, s, t, touched),
        touched.subset_of(more),
    ensures
        goes_on(files, s, t, more),
{
}

/// One request.
proof fn lemma_noted(files: Files, s: Talk, ask: Ask, touched: Set<Seq<char>>)
    requires
        s.reply() is Some,
        ask matches Ask::Write(path, _) ==> touched.contains(path),
    ensures
        goes_on(files, s, s.noted(ask), touched),
        files_now(files, s.noted(ask)) == files_after(files_now(files, s), ask, s.reply()->0),
        truthful(files, s.noted(ask)) ==> true_answer(files_now(files, s), ask, s.reply()->0),
{
    let t = s.noted(ask);
    assert(t.asked.drop_last() =~= s.asked);
    assert(t.asked.take(s.asked.len() as int) =~= s.asked);
    assert(before(t) == s);
}

/// Asking whether a file exists changes nothing and tells the truth.
pub(crate) proof fn lemma_exists(files: Files, s: Talk, path: Seq<char>, touched: Set<Seq<char>>)
    ensures
        ({
            let (t, o) = exists_asked(s, path);
            &&& goes_on(files, s, t, touched)
            &&& files_now(files, t) == files_now(files, s)
            &&& truthful(files, t) && o is Got ==> o->Got_0 == files_now(
                files,
                s,
            ).dom().contains(path)
        }),
{
    if s.reply() is Some {
        lemma_noted(files, s, Ask::Exists(path), touched);
    }
    lemma_here(files, s, touched);
}

proof fn lemma_read(files: Files, s: Talk, path: Seq<char>, touched: Set<Seq<char>>)
    ensures
        ({
            let (t, o) = read_asked(s, path);
            &&& goes_on(files, s, t, touched)
            &&& files_now(files, t) == files_now(files, s)
            &&& truthful(files, t) && o is Got ==> files_now(files, s).dom().contains(path)
                && files_now(files, s)[path] == o->Got_0
        }),
{
    if s.reply() is Some {
        lemma_noted(files, s, Ask::Read(path), touched);
    }
    lemma_here(files, s, touched);
}

pub(crate) proof fn lemma_now(files: Files, s: Talk, touched: Set<Seq<char>>)
    ensures
        goes_on(files, s, now_asked(s).0, touched),
        files_now(files, now_asked(s).0) == files_now(files, s),
{
    if s.reply() is Some {
        lemma_noted(files, s, Ask::Now, touched);
    }
    lemma_here(files, s, touched);
}

pub(crate) proof fn lemma_write(
    files: Files,
    s: Talk,
    path: Seq<char>,
    text: Seq<char>,
    touched: Set<Seq<char>>,
)
    requires
        touched.contains(path),
    ensures
        ({
            let (t, o) = write_asked(s, path, text);
            &&& goes_on(files, s, t, touched)
            &&& o is Got ==> files_now(files, t) == files_now(files, s).insert(path, text)
            &&& o !is Got ==> files_now(files, t) == files_now(files, s)
        }),
{
    if s.reply() is Some {
        lemma_noted(files, s, Ask::Write(path, text), touched);
    }
    lemma_here(files, s, touched);
}

pub(crate) proof fn lemma_markdown_asked(files: Files, s: Talk, path: Seq<char>, touched: Set<Seq<char>>)
    ensures
        ({
            let (t, o) = markdown_asked(s, path);
            &&& goes_on(files, s, t, touched)
            &&& files_now(files, t) == files_now(files, s)
            &&& truthful(files, t) && o is Got ==> files_now(files, s).dom().contains(path)
                && markdown_reading(files_now(files, s)[path]) == Ok::<
                (Seq<(Seq<char>, Field)>, Seq<char>),
                Seq<char>,
            >(o->Got_0)
        }),
{
    lemma_read(files, s, path, touched);
}

pub(crate) proof fn lemma_markdown_written(
    files: Files,
    s: Talk,
    path: Seq<char>,
    fields: Seq<(Seq<char>, Field)>,
    body: Seq<char>,
    touched: Set<Seq<char>>,
)
    requires
        touched.contains(path),
    ensures
        ({
            let (t, o) = markdown_written(s, path, fields, body);
            &&& goes_on(files, s, t, touched)
            &&& o is Got ==> markdown_text(fields, body) is Ok && files_now(files, t) == files_now(
                files,
                s,
            ).insert(path, markdown_text(fields, body)->Ok_0)
            &&& o !is Got ==> files_now(files, t) == files_now(files, s)
        }),
{
    if let Ok(text) = markdown_text(fields, body) {
        lemma_write(files, s, path, text, touched);
    }
    lemma_here(files, s, touched);
}

// ---------------------------------------------------------------------------
// Index files
// ---------------------------------------------------------------------------

/// Whether fields are what an index file must have.
pub open spec fn index_complete(
    fields: Seq<(Seq<char>, Field)>,
    title: Seq<char>,
    description: Option<Seq<char>>,
    part_of: Option<Seq<char>>,
) -> bool {
    &&& text_of(fields, "title"@) == Some(title)
    &&& description is Some ==> text_of(fields, "description"@) == description
    &&& part_of is Some ==> text_of(fields, "part_of"@) == part_of
    &&& lookup(fields, "contents"@) matches Some(Field::List(_))
}

proof fn lemma_settled_field(
    fields: Seq<(Seq<char>, Field)>,
    key: Seq<char>,
    value: Option<Seq<char>>,
    other: Seq<char>,
)
    ensures
        value is Some ==> text_of(settled_field(fields, key, value).0, key) == value,
        other != key ==> lookup(settled_field(fields, key, value).0, other) == lookup(
            fields,
            other,
        ),
        !settled_field(fields, key, value).1 ==> settled_field(fields, key, value).0 == fields,
{
    if value is Some {
        law_set_field(fields, key, Field::Text(value->0), other);
    }
}

/// The fields of an index file come out complete. Fields with other names are as
/// before, and so are all where nothing was missing.
pub proof fn law_index_fields(
    fields: Seq<(Seq<char>, Field)>,
    title: Seq<char>,
    description: Option<Seq<char>>,
    part_of: Option<Seq<char>>,
    other: Seq<char>,
)
    ensures
        ({
            let (f, changed) = index_fields(fields, title, description, part_of);
            &&& index_complete(f, title, description, part_of)
            &&& other != "title"@ && other != "description"@ && other != "part_of"@ && other
                != "contents"@ ==> lookup(f, other) == lookup(fields, other)
            &&& !changed ==> f == fields
        }),
{
    reveal_strlit("title");
    reveal_strlit("description");
    reveal_strlit("part_of");
    reveal_strlit("contents");
    assert("title"@.len() == 5 && "description"@.len() == 11 && "part_of"@.len() == 7
        && "contents"@.len() == 8);
    let (f1, c1) = settled_field(fields, "title"@, Some(title));
    let (f2, c2) = settled_field(f1, "description"@, description);
    let (f3, c3) = settled_field(f2, "part_of"@, part_of);
    let none = text_list(Seq::<Seq<char>>::empty());
    lemma_settled_field(fields, "title"@, Some(title), other);
    lemma_settled_field(f1, "description"@, description, other);
    lemma_settled_field(f1, "description"@, description, "title"@);
    lemma_settled_field(f2, "part_of"@, part_of, other);
    lemma_settled_field(f2, "part_of"@, part_of, "title"@);
    lemma_settled_field(f2, "part_of"@, part_of, "description"@);
    law_set_field(f3, "contents"@, none, other);
    law_set_field(f3, "contents"@, none, "title"@);
    law_set_field(f3, "contents"@, none, "description"@);
    law_set_field(f3, "contents"@, none, "part_of"@);
}

/// The fields and the body of a file, where there is one that can be read.
pub open spec fn file_at(files: Files, path: Seq<char>) -> Option<
    (Seq<(Seq<char>, Field)>, Seq<char>),
> {
    if files.dom().contains(path) {
        match markdown_reading(files[path]) {
            Ok(file) => Some(file),
            Err(_) => None,
        }
    } else {
        None
    }
}

/// The same, with nothing in it where there is none.
pub open spec fn file_or_empty(files: Files, path: Seq<char>) -> (
    Seq<(Seq<char>, Field)>,
    Seq<char>,
) {
    match file_at(files, path) {
        Some(file) => file,
        None => (Seq::empty(), Seq::empty()),
    }
}

/// Whether the fields that no index must have are as before.
pub open spec fn others_kept(was: Seq<(Seq<char>, Field)>, fields: Seq<(Seq<char>, Field)>) -> bool {
    forall|key: Seq<char>|
        key != "title"@ && key != "description"@ && key != "part_of"@ && key != "contents"@
            ==> #[trigger] lookup(fields, key) == lookup(was, key)
}

/// Whether an index file is as it must be: it reads so, or a text was written for
/// it that says so, with the other fields and the body that it had; where it had
/// no body, its title is the body.
pub open spec fn index_in_order(
    was: (Seq<(Seq<char>, Field)>, Seq<char>),
    text: Seq<char>,
    title: Seq<char>,
    description: Option<Seq<char>>,
    part_of: Option<Seq<char>>,
) -> bool {
    ||| markdown_reading(text) matches Ok(file) && index_complete(
        file.0,
        title,
        description,
        part_of,
    ) && trimmed(file.1).len() > 0
    ||| exists|fields: Seq<(Seq<char>, Field)>, body: Seq<char>|
        #[trigger] markdown_text(fields, body) == Ok::<Seq<char>, Seq<char>>(text)
            && index_complete(fields, title, description, part_of) && others_kept(was.0, fields)
            && body == index_body(was.1, title) && trimmed(body).len() > 0
}

/// Seeing to an index file changes that file alone. Afterwards it is there and in
/// order, and the answer says whether it was missing.
pub proof fn law_index_ensured(
    files: Files,
    s: Talk,
    st: StateView,
    rel: Seq<char>,
    title: Seq<char>,
    description: Option<Seq<char>>,
    parent: Option<Seq<char>>,
)
    ensures
        ({
            let (t, o) = index_ensured(s, st, rel, title, description, parent);
            &&& goes_on(files, s, t, Set::empty().insert(st.at(rel)))
            &&& truthful(files, t) && o is Got ==> files_now(files, t).dom().contains(st.at(rel))
                && o->Got_0 == !files_now(files, s).dom().contains(st.at(rel)) && index_in_order(
                file_or_empty(files_now(files, s), st.at(rel)),
                files_now(files, t)[st.at(rel)],
                title,
                description,
                parent_reference(rel, parent),
            )
        }),
{
    let path = st.at(rel);
    let touched = Set::empty().insert(path);
    let part_of = parent_reference(rel, parent);
    let (s1, o1) = exists_asked(s, path);
    lemma_exists(files, s, path, touched);
    match o1 {
        Outcome::Got(true) => {
            let (s2, o2) = markdown_asked(s1, path);
            lemma_markdown_asked(files, s1, path, touched);
            lemma_then(files, s, s1, s2, touched);
            if let Outcome::Got(file) = o2 {
                let (t, o) = index_settled(s2, path, file, true, title, description, part_of);
                lemma_index_settled(files, s2, path, file, true, title, description, part_of);
                lemma_then(files, s, s2, t, touched);
            }
        },
        Outcome::Got(false) => {
            let file = (Seq::<(Seq<char>, Field)>::empty(), Seq::<char>::empty());
            let (t, o) = index_settled(s1, path, file, false, title, description, part_of);
            lemma_index_settled(files, s1, path, file, false, title, description, part_of);
            lemma_then(files, s, s1, t, touched);
        },
        _ => {},
    }
}

proof fn lemma_index_body(body: Seq<char>, title: Seq<char>)
    ensures
        trimmed(index_body(body, title)).len() > 0,
{
    if trimmed(body).len() == 0 {
        reveal_strlit("\n# ");
        let text = "\n# "@ + title + "\n"@;
        assert(text[1] == '#');
        lemma_not_blank(text, 1);
    }
}

proof fn lemma_index_settled(
    files: Files,
    s: Talk,
    path: Seq<char>,
    file: (Seq<(Seq<char>, Field)>, Seq<char>),
    found: bool,
    title: Seq<char>,
    description: Option<Seq<char>>,
    part_of: Option<Seq<char>>,
)
    ensures
        ({
            let (t, o) = index_settled(s, path, file, found, title, description, part_of);
            &&& goes_on(files, s, t, Set::empty().insert(path))
            &&& o is Got ==> o->Got_0 == !found && ((files_now(files, t).dom().contains(path)
                && index_in_order(
                file,
                files_now(files, t)[path],
                title,
                description,
                part_of,
            )) || (found
                && files_now(files, t) == files_now(files, s) && index_complete(
                file.0,
                title,
                description,
                part_of,
            ) && trimmed(file.1).len() > 0))
        }),
{
    let touched = Set::empty().insert(path);
    let (fields, changed) = index_fields(file.0, title, description, part_of);
    assert forall|key: Seq<char>|
        key != "title"@ && key != "description"@ && key != "part_of"@ && key
            != "contents"@ implies #[trigger] lookup(fields, key) == lookup(file.0, key) by {
        law_index_fields(file.0, title, description, part_of, key);
    }
    law_index_fields(file.0, title, description, part_of, "title"@);
    lemma_index_body(file.1, title);
    lemma_markdown_written(
        files,
        s,
        path,
        fields,
        index_body(file.1, title),
        touched,
    );
    lemma_here(files, s, touched);
}

/// Adding to the contents of an index changes that index alone, and makes no new
/// file. Where the index lists the file, nothing is written; else it is written
/// with the file at the end of its contents, and with all else as before.
pub proof fn law_contents_added(
    files: Files,
    s: Talk,
    st: StateView,
    index: Seq<char>,
    child: Seq<char>,
)
    ensures
        ({
            let (t, o) = contents_added(s, st, index, child);
            let now = files_now(files, t);
            &&& goes_on(files, s, t, Set::empty().insert(st.at(index)))
            &&& truthful(files, t) ==> now.dom() == files_now(files, s).dom()
            &&& truthful(files, t) && o == Outcome::Got(false) ==> now.dom().contains(st.at(index))
                && lists(markdown_reading(now[st.at(index)]), reference(index, child))
                && now == files_now(files, s)
            &&& truthful(files, t) && o == Outcome::Got(true) ==> now.dom().contains(st.at(index))
                && files_now(files, s).dom().contains(st.at(index)) && listed_anew(
                files_now(files, s)[st.at(index)],
                now[st.at(index)],
                reference(index, child),
            )
        }),
{
    let path = st.at(index);
    let touched = Set::empty().insert(path);
    let (s1, o1) = markdown_asked(s, path);
    lemma_markdown_asked(files, s, path, touched);
    if let Outcome::Got(file) = o1 {
        let contents = sequence_of(file.0, "contents"@);
        let target = reference(index, child);
        if !contents.contains(target) {
            let list = contents.push(target);
            let fields = with_field(file.0, "contents"@, text_list(list));
            let (s2, o2) = markdown_written(s1, path, fields, file.1);
            lemma_markdown_written(files, s1, path, fields, file.1, touched);
            lemma_then(files, s, s1, s2, touched);
            assert(o2 !is Got ==> files_now(files, s2) == files_now(files, s1));
            if truthful(files, s2) {
                assert(files_now(files, s2).dom() =~= files_now(files, s).dom());
            }
            if o2 is Got {
                lemma_list_set(file.0, list);
                assert(markdown_text(fields, file.1) == Ok::<Seq<char>, Seq<char>>(
                    files_now(files, s2)[path],
                ));
            }
        }
    }
}

/// Setting the contents changes them alone.
proof fn lemma_list_set(was: Seq<(Seq<char>, Field)>, list: Seq<Seq<char>>)
    ensures
        sequence_of(with_field(was, "contents"@, text_list(list)), "contents"@) == list,
        but_contents(was, with_field(was, "contents"@, text_list(list))),
{
    let fields = with_field(was, "contents"@, text_list(list));
    law_set_field(was, "contents"@, text_list(list), "contents"@);
    law_text_list(list);
    assert forall|key: Seq<char>| key != "contents"@ implies #[trigger] lookup(fields, key) == lookup(
        was,
        key,
    ) by {
        law_set_field(was, "contents"@, text_list(list), key);
    }
}

/// Whether all fields but the contents are the same.
pub open spec fn but_contents(was: Seq<(Seq<char>, Field)>, fields: Seq<(Seq<char>, Field)>) -> bool {
    forall|key: Seq<char>|
        key != "contents"@ ==> #[trigger] lookup(fields, key) == lookup(was, key)
}

/// Whether the contents of a file hold a reference.
pub open spec fn lists(
    file: Result<(Seq<(Seq<char>, Field)>, Seq<char>), Seq<char>>,
    target: Seq<char>,
) -> bool {
    file matches Ok(f) && sequence_of(f.0, "contents"@).contains(target)
}

/// Whether a text was written anew with one reference more at the end of its
/// contents.
pub open spec fn listed_anew(old_text: Seq<char>, new_text: Seq<char>, target: Seq<char>) -> bool {
    markdown_reading(old_text) matches Ok(was) && !sequence_of(was.0, "contents"@).contains(target)
        && exists|fields: Seq<(Seq<char>, Field)>|
        #[trigger] markdown_text(fields, was.1) == Ok::<Seq<char>, Seq<char>>(new_text)
            && sequence_of(fields, "contents"@) == sequence_of(was.0, "contents"@).push(target)
            && but_contents(was.0, fields)
}

/// Whether a text lists a reference: it reads so, or it was written anew to do so.
pub open spec fn comes_to_list(text: Seq<char>, target: Seq<char>) -> bool {
    lists(markdown_reading(text), target) || exists|old_text: Seq<char>|
        #[trigger] listed_anew(old_text, text, target)
}

/// Setting the parent of a file changes that file alone: its parent, and nothing
/// else of its fields and its body.
pub proof fn law_parent_set(
    files: Files,
    s: Talk,
    st: StateView,
    child: Seq<char>,
    parent: Seq<char>,
)
    ensures
        ({
            let (t, o) = parent_set(s, st, child, parent);
            let (then, now) = (files_now(files, s), files_now(files, t));
            &&& goes_on(files, s, t, Set::empty().insert(st.at(child)))
            &&& truthful(files, t) && o is Got ==> then.dom().contains(st.at(child))
                && now.dom().contains(st.at(child)) && rewritten(
                then[st.at(child)],
                now[st.at(child)],
                reference(child, parent),
            )
        }),
{
    let path = st.at(child);
    let touched = Set::empty().insert(path);
    let (s1, o1) = markdown_asked(s, path);
    lemma_markdown_asked(files, s, path, touched);
    if let Outcome::Got(file) = o1 {
        let fields = with_field(file.0, "part_of"@, Field::Text(reference(child, parent)));
        let (s2, o2) = markdown_written(s1, path, fields, file.1);
        lemma_markdown_written(files, s1, path, fields, file.1, touched);
        lemma_then(files, s, s1, s2, touched);
    }
}

/// Whether a text was written anew with another parent.
pub open spec fn rewritten(old_text: Seq<char>, new_text: Seq<char>, part_of: Seq<char>) -> bool {
    match markdown_reading(old_text) {
        Ok(file) => markdown_text(
            with_field(file.0, "part_of"@, Field::Text(part_of)),
            file.1,
        ) == Ok::<Seq<char>, Seq<char>>(new_text),
        Err(_) => false,
    }
}

/// Whether adding to the contents of an index, at a truthful host and with no error
/// of it, finds the entry there: it asks for nothing but the file.
pub open spec fn contents_stay(t: Talk, st: StateView, index: Seq<char>, child: Seq<char>) -> bool {
    contents_added(t, st, index, child).1 is Got ==> forall|files: Files|
        #[trigger] truthful(files, contents_added(t, st, index, child).0) ==> contents_added(
            t,
            st,
            index,
            child,
        ) == (t.noted(Ask::Read(st.at(index))), Outcome::Got(false))
}

/// An entry of contents is added once: where what was written reads as such, a
/// second attempt finds it there and asks for nothing but the file.
pub proof fn law_added_once(s: Talk, st: StateView, index: Seq<char>, child: Seq<char>)
    requires
        contents_added(s, st, index, child).1 is Got,
        reads_again(contents_to_write(s, st, index, child)),
    ensures
        contents_stay(contents_added(s, st, index, child).0, st, index, child),
{
    let t = contents_added(s, st, index, child).0;
    let run = contents_added(t, st, index, child);
    if run.1 is Got {
        assert forall|files: Files|
            #[trigger] truthful(files, contents_added(t, st, index, child).0) implies run == (
            t.noted(Ask::Read(st.at(index))),
            Outcome::Got(false),
        ) by {
            lemma_added_once(files, s, st, index, child);
        }
    }
}

proof fn lemma_added_once(
    files: Files,
    s: Talk,
    st: StateView,
    index: Seq<char>,
    child: Seq<char>,
)
    requires
        contents_added(s, st, index, child).1 is Got,
        reads_again(contents_to_write(s, st, index, child)),
    ensures
        ({
            let t = contents_added(s, st, index, child).0;
            let (u, p) = contents_added(t, st, index, child);
            truthful(files, u) && p is Got ==> p == Outcome::Got(false) && u == t.noted(
                Ask::Read(st.at(index)),
            )
        }),
{
    let path = st.at(index);
    let touched = Set::empty().insert(path);
    let target = reference(index, child);
    let (t, o) = contents_added(s, st, index, child);
    let (u, p) = contents_added(t, st, index, child);
    if truthful(files, u) && p is Got {
        law_contents_added(files, t, st, index, child);
        let (s1, o1) = markdown_asked(s, path);
        lemma_markdown_asked(files, s, path, touched);
        let file = o1->Got_0;
        let contents = sequence_of(file.0, "contents"@);
        let list = contents.push(target);
        let fields = with_field(file.0, "contents"@, text_list(list));
        if !contents.contains(target) {
            lemma_markdown_written(files, s1, path, fields, file.1, touched);
            lemma_list_set(file.0, list);
            assert(list[list.len() - 1] == target);
        }
        let (t1, q1) = markdown_asked(t, path);
        lemma_markdown_asked(files, t, path, touched);
        lemma_markdown_written(
            files,
            t1,
            path,
            with_field(
                q1->Got_0.0,
                "contents"@,
                text_list(sequence_of(q1->Got_0.0, "contents"@).push(target)),
            ),
            q1->Got_0.1,
            touched,
        );
        assert(sequence_of(q1->Got_0.0, "contents"@).contains(target));
    }
}

/// Whether seeing to an index file, at a truthful host and with no error of it,
/// finds it in order: it asks for nothing but the file.
pub open spec fn index_stays(
    t: Talk,
    st: StateView,
    rel: Seq<char>,
    title: Seq<char>,
    description: Option<Seq<char>>,
    parent: Option<Seq<char>>,
) -> bool {
    index_ensured(t, st, rel, title, description, parent).1 is Got ==> forall|files: Files|
        #[trigger] truthful(files, index_ensured(t, st, rel, title, description, parent).0)
            ==> index_ensured(t, st, rel, title, description, parent) == (
            t.noted(Ask::Exists(st.at(rel))).noted(Ask::Read(st.at(rel))),
            Outcome::Got(false),
        )
}

/// An index file is seen to once: where what was written reads as such, a second
/// attempt finds it in order and asks for nothing but the file.
pub proof fn law_index_once(
    s: Talk,
    st: StateView,
    rel: Seq<char>,
    title: Seq<char>,
    description: Option<Seq<char>>,
    parent: Option<Seq<char>>,
)
    requires
        index_ensured(s, st, rel, title, description, parent).1 is Got,
        reads_again(index_to_write(s, st, rel, title, description, parent)),
    ensures
        index_stays(
            index_ensured(s, st, rel, title, description, parent).0,
            st,
            rel,
            title,
            description,
            parent,
        ),
{
    let t = index_ensured(s, st, rel, title, description, parent).0;
    let run = index_ensured(t, st, rel, title, description, parent);
    if run.1 is Got {
        assert forall|files: Files|
            #[trigger] truthful(
                files,
                index_ensured(t, st, rel, title, description, parent).0,
            ) implies run == (
            t.noted(Ask::Exists(st.at(rel))).noted(Ask::Read(st.at(rel))),
            Outcome::Got(false),
        ) by {
            lemma_index_once(files, s, st, rel, title, description, parent);
        }
    }
}

proof fn lemma_index_once(
    files: Files,
    s: Talk,
    st: StateView,
    rel: Seq<char>,
    title: Seq<char>,
    description: Option<Seq<char>>,
    parent: Option<Seq<char>>,
)
    requires
        index_ensured(s, st, rel, title, description, parent).1 is Got,
        reads_again(index_to_write(s, st, rel, title, description, parent)),
    ensures
        ({
            let t = index_ensured(s, st, rel, title, description, parent).0;
            let (u, p) = index_ensured(t, st, rel, title, description, parent);
            truthful(files, u) && p is Got ==> p == Outcome::Got(false) && u == t.noted(
                Ask::Exists(st.at(rel)),
            ).noted(Ask::Read(st.at(rel)))
        }),
{
    let path = st.at(rel);
    let part_of = parent_reference(rel, parent);
    let (t, o) = index_ensured(s, st, rel, title, description, parent);
    let (u, p) = index_ensured(t, st, rel, title, description, parent);
    if truthful(files, u) && p is Got {
        law_index_ensured(files, t, st, rel, title, description, parent);
        lemma_index_reads(files, s, st, rel, title, description, parent);
        let touched = Set::empty().insert(path);
        let (t1, q1) = exists_asked(t, path);
        lemma_exists(files, t, path, touched);
        let (t2, q2) = markdown_asked(t1, path);
        lemma_markdown_asked(files, t1, path, touched);
        assert(truthful(files, t1)) by {
            if q1 == Outcome::Got(true) {
                if q2 is Got {
                    lemma_index_settled(
                        files,
                        t2,
                        path,
                        q2->Got_0,
                        true,
                        title,
                        description,
                        part_of,
                    );
                }
            } else {
                lemma_index_settled(
                    files,
                    t1,
                    path,
                    (Seq::empty(), Seq::empty()),
                    false,
                    title,
                    description,
                    part_of,
                );
            }
        }
        assert(q1 == Outcome::Got(true));
        assert(truthful(files, t2)) by {
            lemma_index_settled(files, t2, path, q2->Got_0, true, title, description, part_of);
        }
        let found = q2->Got_0;
        assert(Some(found) == file_at(files_now(files, t), path));
        lemma_index_unchanged(found.0, title, description, part_of);
    }
}

/// Complete fields stay as they are.
proof fn lemma_index_unchanged(
    fields: Seq<(Seq<char>, Field)>,
    title: Seq<char>,
    description: Option<Seq<char>>,
    part_of: Option<Seq<char>>,
)
    requires
        index_complete(fields, title, description, part_of),
    ensures
        index_fields(fields, title, description, part_of) == (fields, false),
{
}

/// Where what was written for an index file reads as such, the file reads as
/// complete afterwards.
pub(crate) proof fn lemma_index_reads(
    files: Files,
    s: Talk,
    st: StateView,
    rel: Seq<char>,
    title: Seq<char>,
    description: Option<Seq<char>>,
    parent: Option<Seq<char>>,
)
    requires
        truthful(files, index_ensured(s, st, rel, title, description, parent).0),
        index_ensured(s, st, rel, title, description, parent).1 is Got,
        reads_again(index_to_write(s, st, rel, title, description, parent)),
    ensures
        file_at(
            files_now(files, index_ensured(s, st, rel, title, description, parent).0),
            st.at(rel),
        ) matches Some(file) && index_complete(
            file.0,
            title,
            description,
            parent_reference(rel, parent),
        ) && trimmed(file.1).len() > 0,
{
    let path = st.at(rel);
    let touched = Set::empty().insert(path);
    let part_of = parent_reference(rel, parent);
    let (t, o) = index_ensured(s, st, rel, title, description, parent);
    let (s1, o1) = exists_asked(s, path);
    lemma_exists(files, s, path, touched);
    let (from, file, found) = if o1 == Outcome::Got(true) {
        let (s2, o2) = markdown_asked(s1, path);
        lemma_markdown_asked(files, s1, path, touched);
        (s2, o2->Got_0, true)
    } else {
        (s1, (Seq::<(Seq<char>, Field)>::empty(), Seq::<char>::empty()), false)
    };
    let fields = index_fields(file.0, title, description, part_of).0;
    let body = index_body(file.1, title);
    lemma_index_settled(files, from, path, file, found, title, description, part_of);
    lemma_markdown_written(files, from, path, fields, body, touched);
    law_index_fields(file.0, title, description, part_of, "title"@);
    lemma_index_body(file.1, title);
}

proof fn lemma_plain_strings(items: Seq<Field>)
    requires
        plain_items(items),
    ensures
        forall|i: int| 0 <= i < strings_of(items).len() ==> plain(#[trigger] strings_of(items)[i]),
    decreases items.len(),
{
    if items.len() > 0 {
        let rest = items.drop_last();
        assert forall|i: int| 0 <= i < rest.len() implies plain_scalar(#[trigger] rest[i]) by {
            assert(rest[i] == items[i]);
        }
        lemma_plain_strings(rest);
        let (all, before) = (strings_of(items), strings_of(rest));
        assert(plain_scalar(items[items.len() - 1]));
        assert forall|i: int| 0 <= i < all.len() implies plain(#[trigger] all[i]) by {
            if i < before.len() {
                assert(all[i] == before[i]);
            }
        }
    }
}

proof fn lemma_plain_list(texts: Seq<Seq<char>>)
    requires
        forall|i: int| 0 <= i < texts.len() ==> plain(#[trigger] texts[i]),
    ensures
        plain_value(text_list(texts)),
{
    let items = text_list(texts)->List_0;
    assert forall|i: int| 0 <= i < items.len() implies plain_scalar(#[trigger] items[i]) by {
        assert(items[i] == Field::Text(texts[i]));
    }
}

/// Adding a plain reference to an index with plain fields writes plain fields.
pub proof fn law_contents_plain(s: Talk, st: StateView, index: Seq<char>, child: Seq<char>)
    requires
        markdown_asked(s, st.at(index)).1 matches Outcome::Got(file) ==> plain_fields(file.0),
        plain(reference(index, child)),
    ensures
        writes_plain(contents_to_write(s, st, index, child)),
{
    reveal_strlit("contents");
    if let Outcome::Got(file) = markdown_asked(s, st.at(index)).1 {
        let contents = sequence_of(file.0, "contents"@);
        let target = reference(index, child);
        if let Some(Field::List(items)) = lookup(file.0, "contents"@) {
            lemma_lookup_plain(file.0, "contents"@);
            lemma_plain_strings(items);
        }
        lemma_plain_list(contents.push(target));
        law_plain_fields(file.0, "contents"@, text_list(contents.push(target)));
    }
}

proof fn lemma_lookup_plain(fields: Seq<(Seq<char>, Field)>, key: Seq<char>)
    requires
        forall|i: int| 0 <= i < fields.len() ==> plain_value((#[trigger] fields[i]).1),
    ensures
        lookup(fields, key) matches Some(value) ==> plain_value(value),
    decreases fields.len(),
{
    if fields.len() > 0 {
        let rest = fields.drop_first();
        assert forall|i: int| 0 <= i < rest.len() implies plain_value((#[trigger] rest[i]).1) by {
            assert(rest[i] == fields[i + 1]);
        }
        lemma_lookup_plain(rest, key);
        assert(plain_value(fields[0].1));
    }
}

/// Seeing to an index with plain fields, with a plain title, description and
/// reference to its parent, writes plain fields.
pub proof fn law_index_plain(
    s: Talk,
    st: StateView,
    rel: Seq<char>,
    title: Seq<char>,
    description: Option<Seq<char>>,
    parent: Option<Seq<char>>,
)
    requires
        markdown_asked(exists_asked(s, st.at(rel)).0, st.at(rel)).1 matches Outcome::Got(file)
            ==> plain_fields(file.0),
        plain(title),
        description matches Some(text) ==> plain(text),
        parent_reference(rel, parent) matches Some(text) ==> plain(text),
    ensures
        writes_plain(index_to_write(s, st, rel, title, description, parent)),
{
    let part_of = parent_reference(rel, parent);
    if let Outcome::Got(file) = markdown_asked(exists_asked(s, st.at(rel)).0, st.at(rel)).1 {
        lemma_index_plain(file.0, title, description, part_of);
    }
    lemma_index_plain(Seq::empty(), title, description, part_of);
}

proof fn lemma_index_plain(
    fields: Seq<(Seq<char>, Field)>,
    title: Seq<char>,
    description: Option<Seq<char>>,
    part_of: Option<Seq<char>>,
)
    requires
        plain_fields(fields),
        plain(title),
        description matches Some(text) ==> plain(text),
        part_of matches Some(text) ==> plain(text),
    ensures
        plain_fields(index_fields(fields, title, description, part_of).0),
{
    reveal_strlit("title");
    reveal_strlit("description");
    reveal_strlit("part_of");
    reveal_strlit("contents");
    let none = text_list(Seq::<Seq<char>>::empty());
    let (f1, _) = settled_field(fields, "title"@, Some(title));
    let (f2, _) = settled_field(f1, "description"@, description);
    let (f3, _) = settled_field(f2, "part_of"@, part_of);
    law_plain_fields(fields, "title"@, Field::Text(title));
    if let Some(text) = description {
        law_plain_fields(f1, "description"@, Field::Text(text));
    }
    if let Some(text) = part_of {
        law_plain_fields(f2, "part_of"@, Field::Text(text));
    }
    lemma_plain_list(Seq::empty());
    law_plain_fields(f3, "contents"@, none);
}

// ---------------------------------------------------------------------------
// Paths that differ
// ---------------------------------------------------------------------------

proof fn lemma_prefixes_keep_end(u: Seq<char>, z: Seq<char>)
    requires
        z.len() > 0,
        !z.contains('/'),
    ensures
        z.is_suffix_of(without_prefixes(u + z, "./"@)),
    decreases u.len(),
{
    reveal_strlit("./");
    let s = u + z;
    let part = "./"@;
    if part.is_prefix_of(s) {
        assert(s[0] == part[0] && s[1] == part[1]);
        if u.len() == 0 {
            assert(z.contains(z[1]));
        } else if u.len() == 1 {
            assert(s[1] == z[0]);
            assert(z.contains(z[0]));
        } else {
            assert(s.skip(2) =~= u.skip(2) + z);
            lemma_prefixes_keep_end(u.skip(2), z);
        }
    } else {
        assert(s.subrange(s.len() - z.len(), s.len() as int) =~= z);
    }
}

proof fn lemma_front_keeps_end(u: Seq<char>, z: Seq<char>)
    requires
        z.len() > 0,
        !z.contains('/'),
    ensures
        z.is_suffix_of(without_front(u + z, slashes())),
    decreases u.len(),
{
    let s = u + z;
    if u.len() == 0 {
        assert(s[0] == z[0]);
        assert(z.contains(z[0]));
        assert(s.subrange(s.len() - z.len(), s.len() as int) =~= z);
    } else if slashes()(s[0]) {
        assert(s.drop_first() =~= u.drop_first() + z);
        lemma_front_keeps_end(u.drop_first(), z);
    } else {
        assert(s.subrange(s.len() - z.len(), s.len() as int) =~= z);
    }
}

/// The end of a file name is kept in the workspace.
proof fn lemma_rel_path_keeps_end(y: Seq<char>, z: Seq<char>)
    requires
        z.len() > 0,
        !z.contains('/'),
        !z.contains('\\'),
    ensures
        z.is_suffix_of(rel_path(y + z)),
{
    let u = char_replaced(y, '\\', '/');
    assert forall|i: int| 0 <= i < z.len() implies z[i] != '\\' by {
        assert(z.contains(z[i]));
    }
    assert(char_replaced(y + z, '\\', '/') =~= u + z);
    lemma_prefixes_keep_end(u, z);
    let w = without_prefixes(u + z, "./"@);
    let v = w.take(w.len() - z.len());
    assert(w =~= v + z);
    lemma_front_keeps_end(v, z);
}

/// Files at the same place in the file system are the same workspace file.
proof fn lemma_same_place(st: StateView, a: Seq<char>, b: Seq<char>)
    requires
        st.at(a) == st.at(b),
    ensures
        rel_path(a) == rel_path(b),
{
    let (m, n) = (rel_path(a), rel_path(b));
    law_rel_path_relative(a);
    law_rel_path_relative(b);
    reveal_strlit("/");
    if st.root is Some {
        let r = st.root->0;
        let folder = if ".md"@.is_suffix_of(r) && parent_of(r) is Some {
            parent_of(r)->0
        } else {
            r
        };
        if st.at(a) == path_joined(folder, m) && st.at(b) == path_joined(folder, n) {
            if folder.len() == 0 || folder.last() == '/' {
                assert((folder + m).skip(folder.len() as int) =~= m);
                assert((folder + n).skip(folder.len() as int) =~= n);
            } else {
                assert((folder + "/"@ + m).skip((folder.len() + 1) as int) =~= m);
                assert((folder + "/"@ + n).skip((folder.len() + 1) as int) =~= n);
            }
        }
    }
}

/// Files whose names end differently stand at different places.
proof fn lemma_ends_apart(st: StateView, a: Seq<char>, b: Seq<char>, y: Seq<char>, z: Seq<char>)
    requires
        y.is_suffix_of(a),
        z.is_suffix_of(b),
        y.len() == z.len() > 0,
        y != z,
        !y.contains('/') && !y.contains('\\'),
        !z.contains('/') && !z.contains('\\'),
    ensures
        st.at(a) != st.at(b),
{
    if st.at(a) == st.at(b) {
        lemma_same_place(st, a, b);
        assert(a =~= a.take(a.len() - y.len()) + y);
        assert(b =~= b.take(b.len() - z.len()) + z);
        lemma_rel_path_keeps_end(a.take(a.len() - y.len()), y);
        lemma_rel_path_keeps_end(b.take(b.len() - z.len()), z);
        let r = rel_path(a);
        assert(r.subrange(r.len() - y.len(), r.len() as int) == y);
        assert(r.subrange(r.len() - z.len(), r.len() as int) == z);
    }
}

/// The same by the character before `.md`.
proof fn lemma_names_apart(st: StateView, a: Seq<char>, b: Seq<char>)
    requires
        a.len() >= 4 && b.len() >= 4,
        ".md"@.is_suffix_of(a) && ".md"@.is_suffix_of(b),
        a[a.len() - 4] != b[b.len() - 4],
        a[a.len() - 4] != '/' && a[a.len() - 4] != '\\',
        b[b.len() - 4] != '/' && b[b.len() - 4] != '\\',
    ensures
        st.at(a) != st.at(b),
{
    reveal_strlit(".md");
    let (n, m) = (a.len() as int, b.len() as int);
    let (y, z) = (a.subrange(n - 4, n), b.subrange(m - 4, m));
    assert(a.subrange(n - 3, n)[0] == '.' && a.subrange(n - 3, n)[1] == 'm' && a.subrange(n - 3, n)[2]
        == 'd');
    assert(b.subrange(m - 3, m)[0] == '.' && b.subrange(m - 3, m)[1] == 'm' && b.subrange(m - 3, m)[2]
        == 'd');
    assert(y[0] == a[n - 4] && y[1] == '.' && y[2] == 'm' && y[3] == 'd');
    assert(z[0] == b[m - 4] && z[1] == '.' && z[2] == 'm' && z[3] == 'd');
    lemma_ends_apart(st, a, b, y, z);
}

/// The entry of a date stands apart from the index files above it.
pub(crate) proof fn lemma_entry_apart(st: StateView, date: CalendarDate)
    requires
        date.valid(),
    ensures
        ({
            let paths = paths_of(st.folder(), date);
            &&& st.at(paths.entry) != st.at(paths.daily_index)
            &&& st.at(paths.entry) != st.at(paths.year_index)
            &&& st.at(paths.entry) != st.at(paths.month_index)
        }),
{
    let paths = paths_of(st.folder(), date);
    let (e, d, y, m) = (paths.entry, paths.daily_index, paths.year_index, paths.month_index);
    lemma_path_ends(st.folder(), date);
    lemma_names_apart(st, e, d);
    lemma_names_apart(st, e, y);
    lemma_names_apart(st, e, m);
}

/// How the names of the files of a date end.
proof fn lemma_path_ends(folder: Seq<char>, date: CalendarDate)
    requires
        date.valid(),
    ensures
        ({
            let paths = paths_of(folder, date);
            let (e, d, y, m) = (paths.entry, paths.daily_index, paths.year_index, paths.month_index);
            &&& e.len() >= 4 && ".md"@.is_suffix_of(e) && '0' <= e[e.len() - 4] <= '9'
            &&& d.len() >= 10 && ".md"@.is_suffix_of(d) && d[d.len() - 4] == 'x'
            &&& y.len() >= 10 && ".md"@.is_suffix_of(y) && y[y.len() - 4] == 'x'
            &&& m.len() >= 4 && ".md"@.is_suffix_of(m) && 'a' <= m[m.len() - 4] <= 'z' && m[m.len()
                - 4] != 'x'
            &&& d.subrange(d.len() - 10, d.len() as int) =~= seq!['y'] + "_index.md"@
            &&& y.subrange(y.len() - 9, y.len() as int) =~= "_index.md"@
            &&& '0' <= y[y.len() - 10] <= '9'
        }),
{
    let paths = paths_of(folder, date);
    reveal_strlit(".md");
    reveal_strlit("_index.md");
    reveal_strlit("daily_index.md");
    let year = year_text(date.year as int);
    lemma_padded_digits(date.day as nat, 2);
    lemma_padded_digits(date.year as nat, 4);
    lemma_padded_digits((-date.year) as nat, 4);
    lemma_slug_letters(date.month as int);
    let day = two_digits(date.day as int);
    let slug = month_slug(date.month as int);
    let (e, d, y, m) = (paths.entry, paths.daily_index, paths.year_index, paths.month_index);
    assert(e.subrange(e.len() - 3, e.len() as int) =~= ".md"@);
    assert(d.subrange(d.len() - 3, d.len() as int) =~= ".md"@);
    assert(y.subrange(y.len() - 3, y.len() as int) =~= ".md"@);
    assert(m.subrange(m.len() - 3, m.len() as int) =~= ".md"@);
    assert(e[e.len() - 4] == day.last());
    assert(m[m.len() - 4] == slug.last());
    assert(y[y.len() - 10] == year.last());
}

/// The index files of a date stand apart from each other.
#[verifier::spinoff_prover]
#[verifier::rlimit(40)]
pub(crate) proof fn lemma_indexes_apart(st: StateView, date: CalendarDate)
    requires
        date.valid(),
    ensures
        ({
            let paths = paths_of(st.folder(), date);
            &&& st.at(paths.daily_index) != st.at(paths.year_index)
            &&& st.at(paths.daily_index) != st.at(paths.month_index)
            &&& st.at(paths.year_index) != st.at(paths.month_index)
        }),
{
    let paths = paths_of(st.folder(), date);
    let (d, y, m) = (paths.daily_index, paths.year_index, paths.month_index);
    lemma_path_ends(st.folder(), date);
    lemma_names_apart(st, d, m);
    lemma_names_apart(st, y, m);
    reveal_strlit("_index.md");
    let (u, v) = (d.subrange(d.len() - 10, d.len() as int), y.subrange(y.len() - 10, y.len() as int));
    assert(v =~= seq![y[y.len() - 10]] + "_index.md"@) by {
        assert(v.skip(1) =~= y.subrange(y.len() - 9, y.len() as int));
        assert(v =~= seq![v[0]] + v.skip(1));
    }
    assert(u[0] != v[0]);
    assert(!u.contains('/') && !u.contains('\\'));
    assert(!v.contains('/') && !v.contains('\\'));
    lemma_ends_apart(st, d, y, u, v);
}

// ---------------------------------------------------------------------------
// The entry of a date
// ---------------------------------------------------------------------------

/// The places at which the root index may stand.
pub open spec fn root_places(st: StateView) -> Set<Seq<char>> {
    root_rel_candidates(st.root).map_values(|rel: Seq<char>| st.at(rel)).to_set()
}

/// The places of all files that belong to a date.
pub open spec fn date_places(st: StateView, date: CalendarDate) -> Set<Seq<char>> {
    let paths = paths_of(st.folder(), date);
    root_places(st).insert(st.at(paths.daily_index)).insert(st.at(paths.year_index)).insert(
        st.at(paths.month_index),
    ).insert(st.at(paths.entry))
}

pub(crate) proof fn lemma_first_existing(
    files: Files,
    s: Talk,
    st: StateView,
    candidates: Seq<Seq<char>>,
    touched: Set<Seq<char>>,
)
    ensures
        ({
            let (t, o) = first_existing(s, st, candidates);
            &&& goes_on(files, s, t, touched)
            &&& files_now(files, t) == files_now(files, s)
            &&& o matches Outcome::Got(Some(rel)) ==> candidates.contains(rel)
        }),
    decreases candidates.len(),
{
    if candidates.len() == 0 {
        lemma_here(files, s, touched);
    } else {
        let (s1, o1) = exists_asked(s, st.at(candidates[0]));
        lemma_exists(files, s, st.at(candidates[0]), touched);
        if o1 == Outcome::Got(false) {
            let rest = candidates.drop_first();
            let (t, o) = first_existing(s1, st, rest);
            lemma_first_existing(files, s1, st, rest, touched);
            lemma_then(files, s, s1, t, touched);
            if let Outcome::Got(Some(rel)) = o {
                let i = rest.index_of(rel);
                assert(candidates[i + 1] == rel);
            }
        }
    }
}

proof fn lemma_indexes_ensured(
    files: Files,
    s: Talk,
    st: StateView,
    date: CalendarDate,
    root_index: Option<Seq<char>>,
)
    ensures
        ({
            let (t, o) = indexes_ensured(s, st, date, root_index);
            let paths = paths_of(st.folder(), date);
            let now = files_now(files, t);
            let touched = Set::empty().insert(st.at(paths.daily_index)).insert(
                st.at(paths.year_index),
            ).insert(st.at(paths.month_index));
            &&& goes_on(files, s, t, touched)
            &&& truthful(files, t) && o is Got ==> now.dom().contains(st.at(paths.daily_index))
                && now.dom().contains(st.at(paths.year_index)) && now.dom().contains(
                st.at(paths.month_index),
            )
        }),
{
    let paths = paths_of(st.folder(), date);
    let (d, y, m) = (paths.daily_index, paths.year_index, paths.month_index);
    let touched = Set::empty().insert(st.at(d)).insert(st.at(y)).insert(st.at(m));
    let about = Some("Date-based daily entry hierarchy"@);
    let (s1, o1) = index_ensured(s, st, d, "Daily Index"@, about, root_index);
    law_index_ensured(files, s, st, d, "Daily Index"@, about, root_index);
    lemma_wider(files, s, s1, Set::empty().insert(st.at(d)), touched);
    if o1 is Got {
        let title = year_text(date.year as int);
        let (s2, o2) = index_ensured(s1, st, y, title, None, Some(d));
        law_index_ensured(files, s1, st, y, title, None, Some(d));
        lemma_wider(files, s1, s2, Set::empty().insert(st.at(y)), touched);
        lemma_then(files, s, s1, s2, touched);
        if o2 is Got {
            let title = month_title(date);
            let (s3, o3) = index_ensured(s2, st, m, title, None, Some(y));
            law_index_ensured(files, s2, st, m, title, None, Some(y));
            lemma_wider(files, s2, s3, Set::empty().insert(st.at(m)), touched);
            lemma_then(files, s, s2, s3, touched);
        }
    }
}

pub(crate) proof fn lemma_indexes_linked(
    files: Files,
    s: Talk,
    st: StateView,
    date: CalendarDate,
    root_index: Option<Seq<char>>,
)
    requires
        root_index matches Some(rel) ==> root_rel_candidates(st.root).contains(rel),
    ensures
        ({
            let (t, o) = indexes_linked(s, st, date, root_index);
            let paths = paths_of(st.folder(), date);
            &&& goes_on(
                files,
                s,
                t,
                root_places(st).insert(st.at(paths.daily_index)).insert(st.at(paths.year_index)),
            )
            &&& truthful(files, t) ==> files_now(files, t).dom() == files_now(files, s).dom()
        }),
{
    let paths = paths_of(st.folder(), date);
    let (d, y, m) = (paths.daily_index, paths.year_index, paths.month_index);
    let touched = root_places(st).insert(st.at(d)).insert(st.at(y));
    let (s1, o1) = root_linked(s, st, d, root_index);
    lemma_here(files, s, touched);
    if root_index is Some && root_index != Some(d) {
        let rel = root_index->0;
        let candidates = root_rel_candidates(st.root);
        let places = candidates.map_values(|r: Seq<char>| st.at(r));
        let i = candidates.index_of(rel);
        assert(places[i] == st.at(rel));
        assert(places.contains(st.at(rel)));
        law_contents_added(files, s, st, rel, d);
        lemma_wider(files, s, s1, Set::empty().insert(st.at(rel)), touched);
    }
    if o1 is Got {
        let (s2, o2) = contents_added(s1, st, d, y);
        law_contents_added(files, s1, st, d, y);
        lemma_wider(files, s1, s2, Set::empty().insert(st.at(d)), touched);
        lemma_then(files, s, s1, s2, touched);
        if o2 is Got {
            let (s3, o3) = contents_added(s2, st, y, m);
            law_contents_added(files, s2, st, y, m);
            lemma_wider(files, s2, s3, Set::empty().insert(st.at(y)), touched);
            lemma_then(files, s, s2, s3, touched);
        }
    }
}

pub(crate) proof fn lemma_template_found(files: Files, s: Talk, st: StateView, touched: Set<Seq<char>>)
    ensures
        goes_on(files, s, template_found(s, st).0, touched),
        files_now(files, template_found(s, st).0) == files_now(files, s),
{
    lemma_here(files, s, touched);
    if st.config.entry_template is Some {
        let setting = trimmed(st.config.entry_template->0);
        let path = template_path(
            setting,
            link_target(setting).path,
        );
        lemma_read(files, s, st.at(path), touched);
    }
}

/// Whether a text is the template of new entries, filled for a date: the default
/// template where none is set.
pub open spec fn is_rendered(text: Seq<char>, st: StateView, date: CalendarDate) -> bool {
    let paths = paths_of(st.folder(), date);
    let part_of = reference(paths.entry, paths.month_index);
    exists|template: Seq<char>, now: LocalDateTime|
        text == #[trigger] rendered(template, entry_title(date), date, part_of, now) && (
        st.config.entry_template is None ==> template == default_template())
}

pub(crate) proof fn lemma_entry_created(files: Files, s: Talk, st: StateView, date: CalendarDate)
    ensures
        ({
            let (t, o) = entry_created(s, st, date);
            let place = st.at(paths_of(st.folder(), date).entry);
            &&& goes_on(files, s, t, Set::empty().insert(place))
            &&& truthful(files, t) && o is Got ==> files_now(files, t).dom().contains(place)
                && o->Got_0 == !files_now(files, s).dom().contains(place)
            &&& o == Outcome::Got(false) ==> files_now(files, t) == files_now(files, s)
            &&& o == Outcome::Got(true) ==> files_now(files, t).dom().contains(place) && is_rendered(
                files_now(files, t)[place],
                st,
                date,
            )
        }),
{
    let place = st.at(paths_of(st.folder(), date).entry);
    let touched = Set::empty().insert(place);
    let (s1, o1) = exists_asked(s, place);
    lemma_exists(files, s, place, touched);
    if o1 == Outcome::Got(false) {
        let (s2, o2) = template_found(s1, st);
        lemma_template_found(files, s1, st, touched);
        lemma_then(files, s, s1, s2, touched);
        if let Outcome::Got(template) = o2 {
            let (s3, o3) = now_asked(s2);
            lemma_now(files, s2, touched);
            lemma_then(files, s, s2, s3, touched);
            if let Outcome::Got(now) = o3 {
                let paths = paths_of(st.folder(), date);
                let text = rendered(
                    template,
                    entry_title(date),
                    date,
                    reference(paths.entry, paths.month_index),
                    now,
                );
                lemma_write(files, s3, place, text, touched);
                lemma_then(files, s, s3, write_asked(s3, place, text).0, touched);
                assert(st.config.entry_template is None ==> template == default_template());
            }
        }
    }
}

/// The place of the entry after its creation, and of the index that lists it.
proof fn lemma_entry_linked(files: Files, s: Talk, st: StateView, date: CalendarDate)
    requires
        date.valid(),
    ensures
        ({
            let (t, o) = entry_linked(s, st, date);
            let paths = paths_of(st.folder(), date);
            let (then, now) = (files_now(files, s), files_now(files, t));
            let target = reference(paths.month_index, paths.entry);
            let month = st.at(paths.month_index);
            let place = st.at(paths.entry);
            &&& goes_on(files, s, t, Set::empty().insert(place).insert(month))
            &&& truthful(files, t) && o is Got ==> {
                &&& now.dom().contains(month)
                &&& comes_to_list(now[month], target)
                &&& then.dom().contains(place) && now.dom().contains(place)
                &&& rewritten(
                    then[place],
                    now[place],
                    reference(paths.entry, paths.month_index),
                )
            }
        }),
{
    let paths = paths_of(st.folder(), date);
    let (e, m) = (paths.entry, paths.month_index);
    let touched = Set::empty().insert(st.at(e)).insert(st.at(m));
    lemma_entry_apart(st, date);
    let (s1, o1) = parent_set(s, st, e, m);
    law_parent_set(files, s, st, e, m);
    lemma_wider(files, s, s1, Set::empty().insert(st.at(e)), touched);
    if o1 is Got {
        let (s2, o2) = contents_added(s1, st, m, e);
        law_contents_added(files, s1, st, m, e);
        assert(same_file(files_now(files, s1), files_now(files, s2), st.at(e)));
        lemma_wider(files, s1, s2, Set::empty().insert(st.at(m)), touched);
        lemma_then(files, s, s1, s2, touched);
    }
}

/// Seeing to the entry of a date changes only the files that belong to the date
/// and removes none. Afterwards the entry and the index files above it are
/// there, and the month index lists the entry. The answer is the path of the
/// entry, and whether it was missing before.
pub proof fn law_entry_ensured(files: Files, s: Talk, st: StateView, date: CalendarDate)
    requires
        date.valid(),
    ensures
        ({
            let (t, o) = entry_ensured(s, st, date);
            let paths = paths_of(st.folder(), date);
            let (then, now) = (files_now(files, s), files_now(files, t));
            let month = st.at(paths.month_index);
            let target = reference(paths.month_index, paths.entry);
            &&& goes_on(files, s, t, date_places(st, date))
            &&& truthful(files, t) && o is Got ==> {
                &&& o->Got_0.0 == paths.entry
                &&& o->Got_0.1 == !then.dom().contains(st.at(paths.entry))
                &&& now.dom().contains(st.at(paths.entry))
                &&& now.dom().contains(st.at(paths.daily_index))
                &&& now.dom().contains(st.at(paths.year_index))
                &&& now.dom().contains(month)
                &&& comes_to_list(now[month], target)
            }
        }),
{
    let paths = paths_of(st.folder(), date);
    let touched = date_places(st, date);
    let candidates = root_rel_candidates(st.root);
    let place = st.at(paths.entry);
    lemma_entry_apart(st, date);
    let (s1, o1) = first_existing(s, st, candidates);
    lemma_first_existing(files, s, st, candidates, touched);
    if let Outcome::Got(root_index) = o1 {
        let (s2, o2) = indexes_ensured(s1, st, date, root_index);
        let indexes = Set::empty().insert(st.at(paths.daily_index)).insert(
            st.at(paths.year_index),
        ).insert(st.at(paths.month_index));
        lemma_indexes_ensured(files, s1, st, date, root_index);
        lemma_wider(files, s1, s2, indexes, touched);
        lemma_then(files, s, s1, s2, touched);
        assert(same_file(files_now(files, s1), files_now(files, s2), place));
        if o2 is Got {
            let (s3, o3) = indexes_linked(s2, st, date, root_index);
            let linked = root_places(st).insert(st.at(paths.daily_index)).insert(
                st.at(paths.year_index),
            );
            lemma_indexes_linked(files, s2, st, date, root_index);
            lemma_wider(files, s2, s3, linked, touched);
            lemma_then(files, s, s2, s3, touched);
            if o3 is Got {
                let (s4, o4) = entry_created(s3, st, date);
                lemma_entry_created(files, s3, st, date);
                lemma_wider(files, s3, s4, Set::empty().insert(place), touched);
                lemma_then(files, s, s3, s4, touched);
                if o4 is Got {
                    let (s5, o5) = entry_linked(s4, st, date);
                    lemma_entry_linked(files, s4, st, date);
                    lemma_wider(
                        files,
                        s4,
                        s5,
                        Set::empty().insert(place).insert(st.at(paths.month_index)),
                        touched,
                    );
                    lemma_then(files, s, s4, s5, touched);
                    let now = files_now(files, s5);
                    if truthful(files, s5) && o5 is Got {
                        assert(files_now(files, s3).dom().contains(st.at(paths.daily_index)));
                        assert(files_now(files, s3).dom().contains(st.at(paths.year_index)));
                        assert(files_now(files, s4).dom().contains(st.at(paths.daily_index)));
                        assert(files_now(files, s4).dom().contains(st.at(paths.year_index)));
                        assert(now.dom().contains(st.at(paths.daily_index)));
                        assert(now.dom().contains(st.at(paths.year_index)));
                    }
                }
            }
        }
    }
}

// ---------------------------------------------------------------------------
// The links of an entry
// ---------------------------------------------------------------------------

/// Whether every text that a session has asked to write, where it was written from
/// fields and a body, reads as them.
pub open spec fn writings_read(s: Talk) -> bool {
    forall|i: int, fields: Seq<(Seq<char>, Field)>, body: Seq<char>|
        #![trigger s.asked[i], markdown_text(fields, body)]
        0 <= i < s.asked.len() && (s.asked[i] matches Ask::Write(_, text) && markdown_text(
            fields,
            body,
        ) == Ok::<Seq<char>, Seq<char>>(text)) ==> reads_as(
            markdown_text(fields, body),
            fields,
            body,
        )
}

pub(crate) proof fn lemma_writings_before(files: Files, s: Talk, t: Talk, touched: Set<Seq<char>>)
    requires
        goes_on(files, s, t, touched),
        writings_read(t),
    ensures
        writings_read(s),
{
    assert forall|i: int, fields: Seq<(Seq<char>, Field)>, body: Seq<char>|
        #![trigger s.asked[i], markdown_text(fields, body)]
        0 <= i < s.asked.len() && (s.asked[i] matches Ask::Write(_, text) && markdown_text(
            fields,
            body,
        ) == Ok::<Seq<char>, Seq<char>>(text)) implies reads_as(
        markdown_text(fields, body),
        fields,
        body,
    ) by {
        assert(s.asked[i] == t.asked[i]);
    }
}

/// What was written last reads as it was written.
pub(crate) proof fn lemma_written_reads(
    s: Talk,
    path: Seq<char>,
    fields: Seq<(Seq<char>, Field)>,
    body: Seq<char>,
)
    requires
        markdown_written(s, path, fields, body).1 is Got,
        writings_read(markdown_written(s, path, fields, body).0),
    ensures
        reads_as(markdown_text(fields, body), fields, body),
{
    let t = markdown_written(s, path, fields, body).0;
    let n = s.asked.len() as int;
    assert(t.asked[n] == Ask::Write(path, markdown_text(fields, body)->Ok_0));
}

/// Whether all references of one are among those of the other.
pub open spec fn still_listed(was: Seq<(Seq<char>, Field)>, fields: Seq<(Seq<char>, Field)>) -> bool {
    forall|target: Seq<char>|
        sequence_of(was, "contents"@).contains(target) ==> #[trigger] sequence_of(
            fields,
            "contents"@,
        ).contains(target)
}

/// Whether a file that could be read still can, with all references that it had;
/// and, unless it is the one that is left out, with the same other fields.
pub open spec fn links_kept_at(a: Files, b: Files, but: Seq<char>, path: Seq<char>) -> bool {
    file_at(a, path) matches Some(was) ==> (file_at(b, path) matches Some(file) && still_listed(
        was.0,
        file.0,
    ) && (path != but ==> but_contents(was.0, file.0)))
}

/// Whether this is so of every file.
pub open spec fn links_kept(a: Files, b: Files, but: Seq<char>) -> bool {
    forall|path: Seq<char>| #[trigger] links_kept_at(a, b, but, path)
}

pub(crate) proof fn lemma_links_kept(a: Files, b: Files, c: Files, but: Seq<char>)
    requires
        links_kept(a, b, but),
        links_kept(b, c, but),
    ensures
        links_kept(a, c, but),
{
    assert forall|path: Seq<char>| #[trigger] links_kept_at(a, c, but, path) by {
        assert(links_kept_at(a, b, but, path));
        assert(links_kept_at(b, c, but, path));
        if file_at(a, path) is Some {
            let was = file_at(a, path)->0;
            let mid = file_at(b, path)->0;
            let file = file_at(c, path)->0;
            assert forall|target: Seq<char>|
                sequence_of(was.0, "contents"@).contains(target) implies #[trigger] sequence_of(
                file.0,
                "contents"@,
            ).contains(target) by {
                assert(sequence_of(mid.0, "contents"@).contains(target));
            }
            if path != but {
                assert forall|key: Seq<char>| key != "contents"@ implies #[trigger] lookup(
                    file.0,
                    key,
                ) == lookup(was.0, key) by {
                    assert(lookup(mid.0, key) == lookup(was.0, key));
                }
            }
        }
    }
}

/// Adding to the contents keeps all links, and makes the new one.
pub(crate) proof fn lemma_added_link(
    files: Files,
    s: Talk,
    st: StateView,
    index: Seq<char>,
    child: Seq<char>,
    but: Seq<char>,
)
    requires
        truthful(files, contents_added(s, st, index, child).0),
        contents_added(s, st, index, child).1 is Got,
        writings_read(contents_added(s, st, index, child).0),
    ensures
        ({
            let t = contents_added(s, st, index, child).0;
            &&& links_kept(files_now(files, s), files_now(files, t), but)
            &&& file_at(files_now(files, t), st.at(index)) matches Some(file) && sequence_of(
                file.0,
                "contents"@,
            ).contains(reference(index, child))
        }),
{
    let path = st.at(index);
    let touched = Set::empty().insert(path);
    let target = reference(index, child);
    let t = contents_added(s, st, index, child).0;
    law_contents_added(files, s, st, index, child);
    let (s1, o1) = markdown_asked(s, path);
    lemma_markdown_asked(files, s, path, touched);
    let (then, now) = (files_now(files, s), files_now(files, t));
    let file = o1->Got_0;
    let contents = sequence_of(file.0, "contents"@);
    if !contents.contains(target) {
        let list = contents.push(target);
        let fields = with_field(file.0, "contents"@, text_list(list));
        lemma_markdown_written(files, s1, path, fields, file.1, touched);
        lemma_written_reads(s1, path, fields, file.1);
        lemma_list_set(file.0, list);
        assert(list[list.len() - 1] == target);
        assert forall|x: Seq<char>| contents.contains(x) implies list.contains(x) by {
            let i = contents.index_of(x);
            assert(list[i] == x);
        }
        assert(file_at(now, path) == Some((fields, file.1)));
    }
    assert(file_at(then, path) == Some(file));
    assert forall|q: Seq<char>| #[trigger] links_kept_at(then, now, but, q) by {
        if q != path {
            assert(same_file(then, now, q));
            assert(file_at(now, q) == file_at(then, q));
        }
    }
}

/// Setting the parent keeps all links but the parent, and makes that one.
pub(crate) proof fn lemma_parent_link(files: Files, s: Talk, st: StateView, child: Seq<char>, parent: Seq<char>)
    requires
        truthful(files, parent_set(s, st, child, parent).0),
        parent_set(s, st, child, parent).1 is Got,
        writings_read(parent_set(s, st, child, parent).0),
    ensures
        ({
            let t = parent_set(s, st, child, parent).0;
            &&& links_kept(files_now(files, s), files_now(files, t), st.at(child))
            &&& file_at(files_now(files, t), st.at(child)) matches Some(file) && text_of(
                file.0,
                "part_of"@,
            ) == Some(reference(child, parent))
        }),
{
    reveal_strlit("part_of");
    reveal_strlit("contents");
    let path = st.at(child);
    let touched = Set::empty().insert(path);
    let t = parent_set(s, st, child, parent).0;
    law_parent_set(files, s, st, child, parent);
    let (s1, o1) = markdown_asked(s, path);
    lemma_markdown_asked(files, s, path, touched);
    let (then, now) = (files_now(files, s), files_now(files, t));
    let file = o1->Got_0;
    let value = Field::Text(reference(child, parent));
    let fields = with_field(file.0, "part_of"@, value);
    lemma_markdown_written(files, s1, path, fields, file.1, touched);
    lemma_written_reads(s1, path, fields, file.1);
    assert("part_of"@.len() != "contents"@.len());
    law_set_field(file.0, "part_of"@, value, "contents"@);
    assert(file_at(now, path) == Some((fields, file.1)));
    assert(file_at(then, path) == Some(file));
    assert forall|q: Seq<char>| #[trigger] links_kept_at(then, now, path, q) by {
        if q != path {
            assert(same_file(then, now, q));
            assert(file_at(now, q) == file_at(then, q));
        }
    }
}

/// Whether a file can be read and names a parent.
pub open spec fn has_parent(files: Files, path: Seq<char>, part_of: Seq<char>) -> bool {
    file_at(files, path) matches Some(file) && text_of(file.0, "part_of"@) == Some(part_of)
}

/// Whether a file can be read and lists another.
pub open spec fn has_child(files: Files, path: Seq<char>, target: Seq<char>) -> bool {
    file_at(files, path) matches Some(file) && sequence_of(file.0, "contents"@).contains(target)
}

pub(crate) proof fn lemma_parent_kept(a: Files, b: Files, but: Seq<char>, path: Seq<char>, part_of: Seq<char>)
    requires
        links_kept(a, b, but),
        has_parent(a, path, part_of),
        path != but,
    ensures
        has_parent(b, path, part_of),
{
    reveal_strlit("part_of");
    reveal_strlit("contents");
    assert("part_of"@.len() != "contents"@.len());
    assert(links_kept_at(a, b, but, path));
    let (was, file) = (file_at(a, path)->0, file_at(b, path)->0);
    assert(lookup(file.0, "part_of"@) == lookup(was.0, "part_of"@));
}

proof fn lemma_child_kept(a: Files, b: Files, but: Seq<char>, path: Seq<char>, target: Seq<char>)
    requires
        links_kept(a, b, but),
        has_child(a, path, target),
    ensures
        has_child(b, path, target),
{
    assert(links_kept_at(a, b, but, path));
    let (was, file) = (file_at(a, path)->0, file_at(b, path)->0);
    assert(sequence_of(file.0, "contents"@).contains(target));
}

/// Seeing to an index file gives it its parent.
proof fn lemma_index_parent(
    files: Files,
    s: Talk,
    st: StateView,
    rel: Seq<char>,
    title: Seq<char>,
    description: Option<Seq<char>>,
    parent: Option<Seq<char>>,
)
    requires
        truthful(files, index_ensured(s, st, rel, title, description, parent).0),
        index_ensured(s, st, rel, title, description, parent).1 is Got,
        writings_read(index_ensured(s, st, rel, title, description, parent).0),
    ensures
        parent matches Some(p) ==> has_parent(
            files_now(files, index_ensured(s, st, rel, title, description, parent).0),
            st.at(rel),
            reference(rel, p),
        ),
{
    let path = st.at(rel);
    let part_of = parent_reference(rel, parent);
    let (s1, o1) = exists_asked(s, path);
    let (from, file, found) = if o1 == Outcome::Got(true) {
        let (s2, o2) = markdown_asked(s1, path);
        (s2, o2->Got_0, true)
    } else {
        (s1, (Seq::<(Seq<char>, Field)>::empty(), Seq::<char>::empty()), false)
    };
    let fields = index_fields(file.0, title, description, part_of).0;
    let body = index_body(file.1, title);
    if index_to_write(s, st, rel, title, description, parent) is Some {
        assert(index_to_write(s, st, rel, title, description, parent) == Some((fields, body)));
        lemma_written_reads(from, path, fields, body);
    }
    lemma_index_reads(files, s, st, rel, title, description, parent);
}

/// The links of the index files upwards.
pub open spec fn links_up(files: Files, st: StateView, date: CalendarDate, root_index: Option<Seq<char>>) -> bool {
    let paths = paths_of(st.folder(), date);
    let (d, y, m) = (paths.daily_index, paths.year_index, paths.month_index);
    &&& root_index matches Some(r) ==> has_parent(files, st.at(d), reference(d, r))
    &&& has_parent(files, st.at(y), reference(y, d))
    &&& has_parent(files, st.at(m), reference(m, y))
}

/// The links of the index files downwards.
pub open spec fn links_down(files: Files, st: StateView, date: CalendarDate, root_index: Option<Seq<char>>) -> bool {
    let paths = paths_of(st.folder(), date);
    let (d, y, m) = (paths.daily_index, paths.year_index, paths.month_index);
    &&& root_index matches Some(r) ==> r != d ==> has_child(files, st.at(r), reference(r, d))
    &&& has_child(files, st.at(d), reference(d, y))
    &&& has_child(files, st.at(y), reference(y, m))
}

proof fn lemma_links_up(
    files: Files,
    s: Talk,
    st: StateView,
    date: CalendarDate,
    root_index: Option<Seq<char>>,
)
    requires
        date.valid(),
        truthful(files, indexes_ensured(s, st, date, root_index).0),
        indexes_ensured(s, st, date, root_index).1 is Got,
        writings_read(indexes_ensured(s, st, date, root_index).0),
    ensures
        links_up(files_now(files, indexes_ensured(s, st, date, root_index).0), st, date, root_index),
{
    let paths = paths_of(st.folder(), date);
    let (d, y, m) = (paths.daily_index, paths.year_index, paths.month_index);
    let about = Some("Date-based daily entry hierarchy"@);
    let year = year_text(date.year as int);
    let month = month_title(date);
    let (s1, o1) = index_ensured(s, st, d, "Daily Index"@, about, root_index);
    let (s2, o2) = index_ensured(s1, st, y, year, None, Some(d));
    let (s3, o3) = index_ensured(s2, st, m, month, None, Some(y));
    lemma_indexes_apart(st, date);
    law_index_ensured(files, s1, st, y, year, None, Some(d));
    law_index_ensured(files, s2, st, m, month, None, Some(y));
    lemma_writings_before(files, s2, s3, Set::empty().insert(st.at(m)));
    lemma_writings_before(files, s1, s2, Set::empty().insert(st.at(y)));
    lemma_index_parent(files, s, st, d, "Daily Index"@, about, root_index);
    lemma_index_parent(files, s1, st, y, year, None, Some(d));
    lemma_index_parent(files, s2, st, m, month, None, Some(y));
    assert(same_file(files_now(files, s1), files_now(files, s2), st.at(d)));
    assert(same_file(files_now(files, s2), files_now(files, s3), st.at(d)));
    assert(same_file(files_now(files, s2), files_now(files, s3), st.at(y)));
}

pub(crate) proof fn lemma_links_down(
    files: Files,
    s: Talk,
    st: StateView,
    date: CalendarDate,
    root_index: Option<Seq<char>>,
    but: Seq<char>,
)
    requires
        date.valid(),
        truthful(files, indexes_linked(s, st, date, root_index).0),
        indexes_linked(s, st, date, root_index).1 is Got,
        writings_read(indexes_linked(s, st, date, root_index).0),
    ensures
        ({
            let (then, now) = (
                files_now(files, s),
                files_now(files, indexes_linked(s, st, date, root_index).0),
            );
            links_kept(then, now, but) && links_down(now, st, date, root_index)
        }),
{
    let paths = paths_of(st.folder(), date);
    let (d, y, m) = (paths.daily_index, paths.year_index, paths.month_index);
    let (s1, o1) = root_linked(s, st, d, root_index);
    let (s2, o2) = contents_added(s1, st, d, y);
    let (s3, o3) = contents_added(s2, st, y, m);
    law_contents_added(files, s1, st, d, y);
    law_contents_added(files, s2, st, y, m);
    lemma_writings_before(files, s2, s3, Set::empty().insert(st.at(y)));
    lemma_writings_before(files, s1, s2, Set::empty().insert(st.at(d)));
    let (f0, f1, f2, f3) = (
        files_now(files, s),
        files_now(files, s1),
        files_now(files, s2),
        files_now(files, s3),
    );
    lemma_added_link(files, s1, st, d, y, but);
    lemma_added_link(files, s2, st, y, m, but);
    lemma_links_kept(f1, f2, f3, but);
    if root_index is Some && root_index != Some(d) {
        let r = root_index->0;
        lemma_added_link(files, s, st, r, d, but);
        lemma_child_kept(f1, f3, but, st.at(r), reference(r, d));
        lemma_links_kept(f0, f1, f3, but);
    }
    lemma_child_kept(f2, f3, but, st.at(d), reference(d, y));
}

/// Creating an entry keeps all links.
pub(crate) proof fn lemma_created_links(files: Files, s: Talk, st: StateView, date: CalendarDate, but: Seq<char>)
    requires
        truthful(files, entry_created(s, st, date).0),
        entry_created(s, st, date).1 is Got,
    ensures
        links_kept(files_now(files, s), files_now(files, entry_created(s, st, date).0), but),
{
    let t = entry_created(s, st, date).0;
    let place = st.at(paths_of(st.folder(), date).entry);
    let (then, now) = (files_now(files, s), files_now(files, t));
    lemma_entry_created(files, s, st, date);
    assert forall|q: Seq<char>| #[trigger] links_kept_at(then, now, but, q) by {
        if file_at(then, q) is Some {
            if q != place {
                assert(same_file(then, now, q));
            }
            assert(file_at(now, q) == file_at(then, q));
        }
    }
}

/// The root index that a session finds.
pub open spec fn root_found(s: Talk, st: StateView) -> Option<Seq<char>> {
    match first_existing(s, st, root_rel_candidates(st.root)).1 {
        Outcome::Got(root_index) => root_index,
        _ => None,
    }
}

/// Seeing to the entry of a date links everything, where what is written reads as
/// it was written: the entry, the month index, the year index and the daily index
/// each name the one above as their parent, and each index lists the one below; the
/// root index, where there is one, is the parent of the daily index and lists it.
pub proof fn law_entry_links(files: Files, s: Talk, st: StateView, date: CalendarDate)
    requires
        date.valid(),
        truthful(files, entry_ensured(s, st, date).0),
        entry_ensured(s, st, date).1 is Got,
        writings_read(entry_ensured(s, st, date).0),
    ensures
        ({
            let now = files_now(files, entry_ensured(s, st, date).0);
            let paths = paths_of(st.folder(), date);
            let (m, e) = (paths.month_index, paths.entry);
            &&& links_up(now, st, date, root_found(s, st))
            &&& links_down(now, st, date, root_found(s, st))
            &&& has_parent(now, st.at(e), reference(e, m))
            &&& has_child(now, st.at(m), reference(m, e))
        }),
{
    let paths = paths_of(st.folder(), date);
    let (d, y, m, e) = (paths.daily_index, paths.year_index, paths.month_index, paths.entry);
    let place = st.at(e);
    let candidates = root_rel_candidates(st.root);
    lemma_entry_apart(st, date);
    let (s1, o1) = first_existing(s, st, candidates);
    lemma_first_existing(files, s, st, candidates, Set::empty());
    let root_index = o1->Got_0;
    let (s2, o2) = indexes_ensured(s1, st, date, root_index);
    let (s3, o3) = indexes_linked(s2, st, date, root_index);
    let (s4, o4) = entry_created(s3, st, date);
    let (s5, o5) = parent_set(s4, st, e, m);
    let (s6, o6) = contents_added(s5, st, m, e);
    let linked = root_places(st).insert(st.at(d)).insert(st.at(y));
    lemma_indexes_linked(files, s2, st, date, root_index);
    lemma_entry_created(files, s3, st, date);
    law_parent_set(files, s4, st, e, m);
    law_contents_added(files, s5, st, m, e);
    lemma_writings_before(files, s5, s6, Set::empty().insert(st.at(m)));
    lemma_writings_before(files, s4, s5, Set::empty().insert(place));
    lemma_writings_before(files, s3, s4, Set::empty().insert(place));
    lemma_writings_before(files, s2, s3, linked);
    let (f2, f3, f4, f5, f6) = (
        files_now(files, s2),
        files_now(files, s3),
        files_now(files, s4),
        files_now(files, s5),
        files_now(files, s6),
    );
    lemma_links_up(files, s1, st, date, root_index);
    lemma_links_down(files, s2, st, date, root_index, place);
    lemma_created_links(files, s3, st, date, place);
    lemma_parent_link(files, s4, st, e, m);
    lemma_added_link(files, s5, st, m, e, place);
    lemma_links_kept(f3, f4, f5, place);
    lemma_links_kept(f3, f5, f6, place);
    lemma_links_kept(f2, f3, f6, place);
    if let Some(r) = root_index {
        lemma_parent_kept(f2, f6, place, st.at(d), reference(d, r));
        if r != d {
            lemma_child_kept(f3, f6, place, st.at(r), reference(r, d));
        }
    }
    lemma_parent_kept(f2, f6, place, st.at(y), reference(y, d));
    lemma_parent_kept(f2, f6, place, st.at(m), reference(m, y));
    lemma_child_kept(f3, f6, place, st.at(d), reference(d, y));
    lemma_child_kept(f3, f6, place, st.at(y), reference(y, m));
    assert(same_file(f5, f6, place));
}

/// Whether the file at a place is the root index, and does not list the daily
/// index yet.
pub open spec fn gains_daily_index(
    st: StateView,
    date: CalendarDate,
    root_index: Option<Seq<char>>,
    place: Seq<char>,
    text: Seq<char>,
) -> bool {
    root_index matches Some(r) && st.at(r) == place && !lists(
        markdown_reading(text),
        reference(r, paths_of(st.folder(), date).daily_index),
    )
}

/// A text that came to list a target, and then got a reference to its parent.
pub open spec fn listed_and_rewritten(
    old_text: Seq<char>,
    new_text: Seq<char>,
    target: Seq<char>,
    part_of: Seq<char>,
) -> bool {
    exists|text: Seq<char>|
        listed_anew(old_text, text, target) && #[trigger] rewritten(text, new_text, part_of)
}

/// Linking the index files changes an entry only where it is the root index.
proof fn lemma_entry_at_root(
    files: Files,
    s: Talk,
    st: StateView,
    date: CalendarDate,
    root_index: Option<Seq<char>>,
)
    requires
        date.valid(),
        truthful(files, indexes_linked(s, st, date, root_index).0),
        indexes_linked(s, st, date, root_index).1 is Got,
        files_now(files, s).dom().contains(st.at(paths_of(st.folder(), date).entry)),
    ensures
        ({
            let paths = paths_of(st.folder(), date);
            let place = st.at(paths.entry);
            let now = files_now(files, indexes_linked(s, st, date, root_index).0);
            let (old_text, new_text) = (files_now(files, s)[place], now[place]);
            &&& now.dom().contains(place)
            &&& gains_daily_index(st, date, root_index, place, old_text) ==> listed_anew(
                old_text,
                new_text,
                reference(root_index->0, paths.daily_index),
            )
            &&& !gains_daily_index(st, date, root_index, place, old_text) ==> new_text == old_text
        }),
{
    let paths = paths_of(st.folder(), date);
    let (d, y, m) = (paths.daily_index, paths.year_index, paths.month_index);
    let place = st.at(paths.entry);
    lemma_entry_apart(st, date);
    let (s1, o1) = root_linked(s, st, d, root_index);
    let (s2, o2) = contents_added(s1, st, d, y);
    let (s3, o3) = contents_added(s2, st, y, m);
    law_contents_added(files, s1, st, d, y);
    law_contents_added(files, s2, st, y, m);
    if root_index is Some && root_index != Some(d) {
        law_contents_added(files, s, st, root_index->0, d);
        if st.at(root_index->0) != place {
            assert(same_file(files_now(files, s), files_now(files, s1), place));
        }
    }
    assert(same_file(files_now(files, s1), files_now(files, s2), place));
    assert(same_file(files_now(files, s2), files_now(files, s3), place));
}

/// An entry that is there stays what it is: only the reference to its month
/// index is set, all other fields and the body are written as they were. Where the
/// entry is also the root index, and does not list the daily index yet, its
/// contents gain the daily index before that.
pub proof fn law_entry_kept(files: Files, s: Talk, st: StateView, date: CalendarDate)
    requires
        date.valid(),
        files_now(files, s).dom().contains(st.at(paths_of(st.folder(), date).entry)),
        truthful(files, entry_ensured(s, st, date).0),
        entry_ensured(s, st, date).1 is Got,
    ensures
        ({
            let (t, o) = entry_ensured(s, st, date);
            let paths = paths_of(st.folder(), date);
            let place = st.at(paths.entry);
            let (old_text, new_text) = (files_now(files, s)[place], files_now(files, t)[place]);
            let part_of = reference(paths.entry, paths.month_index);
            let root_index = root_found(s, st);
            &&& o->Got_0.1 == false
            &&& !gains_daily_index(st, date, root_index, place, old_text) ==> rewritten(
                old_text,
                new_text,
                part_of,
            )
            &&& gains_daily_index(st, date, root_index, place, old_text)
                ==> listed_and_rewritten(
                old_text,
                new_text,
                reference(root_index->0, paths.daily_index),
                part_of,
            )
        }),
{
    let paths = paths_of(st.folder(), date);
    let candidates = root_rel_candidates(st.root);
    let place = st.at(paths.entry);
    lemma_entry_apart(st, date);
    let (s1, o1) = first_existing(s, st, candidates);
    lemma_first_existing(files, s, st, candidates, Set::empty());
    let root_index = o1->Got_0;
    let (s2, o2) = indexes_ensured(s1, st, date, root_index);
    lemma_indexes_ensured(files, s1, st, date, root_index);
    let (s3, o3) = indexes_linked(s2, st, date, root_index);
    lemma_indexes_linked(files, s2, st, date, root_index);
    let (s4, o4) = entry_created(s3, st, date);
    lemma_entry_created(files, s3, st, date);
    lemma_entry_linked(files, s4, st, date);
    assert(same_file(files_now(files, s1), files_now(files, s2), place));
    lemma_entry_at_root(files, s2, st, date, root_index);
    let (old_text, text) = (files_now(files, s)[place], files_now(files, s3)[place]);
    assert(files_now(files, s2)[place] == old_text);
    assert(rewritten(
        text,
        files_now(files, entry_ensured(s, st, date).0)[place],
        reference(paths.entry, paths.month_index),
    ));
}

/// A new entry is the template, filled for the date, with the reference to its
/// month index set.
pub proof fn law_new_entry(files: Files, s: Talk, st: StateView, date: CalendarDate)
    requires
        date.valid(),
    ensures
        ({
            let (t, o) = entry_ensured(s, st, date);
            let paths = paths_of(st.folder(), date);
            truthful(files, t) && o is Got && o->Got_0.1 ==> exists|text: Seq<char>|
                is_rendered(text, st, date) && #[trigger] rewritten(
                    text,
                    files_now(files, t)[st.at(paths.entry)],
                    reference(paths.entry, paths.month_index),
                )
        }),
{
    let (s1, o1) = first_existing(s, st, root_rel_candidates(st.root));
    if let Outcome::Got(root_index) = o1 {
        let (s2, o2) = indexes_ensured(s1, st, date, root_index);
        if o2 is Got {
            let (s3, o3) = indexes_linked(s2, st, date, root_index);
            if o3 is Got {
                let (s4, o4) = entry_created(s3, st, date);
                lemma_entry_created(files, s3, st, date);
                if o4 is Got {
                    lemma_entry_linked(files, s4, st, date);
                }
            }
        }
    }
}

/// The text that a reply holds, where it is not blank; else the default template.
pub open spec fn text_or_default(answer: Answer) -> Seq<char> {
    match answer {
        Answer::Content(Ok(text)) => if trimmed(text).len() > 0 {
            text
        } else {
            default_template()
        },
        _ => default_template(),
    }
}

/// The file that a setting of the template leads to: the target of a link, or the
/// setting itself.
pub open spec fn template_place(st: StateView, setting: Seq<char>) -> Seq<char> {
    st.at(
        if link_target(setting).path.len() > 0 {
            link_target(setting).path
        } else {
            setting
        },
    )
}

/// Whether a setting of the template is the template itself.
pub open spec fn is_template(setting: Seq<char>) -> bool {
    occurs(setting, "\n"@) || occurs(setting, "{{"@)
}

/// Whether a session has read this template at a place, or the default one where
/// nothing was to be had there.
pub open spec fn template_read(t: Talk, place: Seq<char>, template: Seq<char>) -> bool {
    exists|k: int|
        0 <= k < t.asked.len() && #[trigger] t.asked[k] == Ask::Read(place) && template
            == text_or_default(t.replies[k])
}

/// Whether this is the template that the settings stand for: the default one where
/// none is set, the setting where it is a template, else what the session read in
/// the file that it leads to.
pub open spec fn template_meant(t: Talk, st: StateView, template: Seq<char>) -> bool {
    match st.config.entry_template {
        None => template == default_template(),
        Some(text) => if is_template(trimmed(text)) {
            template == trimmed(text)
        } else {
            template_read(t, template_place(st, trimmed(text)), template)
        },
    }
}

/// Whether the host has told this time in a session.
pub open spec fn time_told(t: Talk, now: LocalDateTime) -> bool {
    exists|k: int|
        0 <= k < t.asked.len() && #[trigger] t.asked[k] == Ask::Now && (t.replies[k] matches
            Answer::Content(Ok(raw)) && moment_reading(trimmed(raw)) == Ok::<
            LocalDateTime,
            Seq<char>,
        >(now))
}

/// Whether a text is a template, filled for a date.
pub open spec fn filled(
    text: Seq<char>,
    st: StateView,
    date: CalendarDate,
    template: Seq<char>,
    now: LocalDateTime,
) -> bool {
    let paths = paths_of(st.folder(), date);
    text == rendered(
        template,
        entry_title(date),
        date,
        reference(paths.entry, paths.month_index),
        now,
    )
}

/// Whether a text is the template that the settings stand for, filled for a date at
/// a time that the host has told.
pub open spec fn made_from_template(
    t: Talk,
    text: Seq<char>,
    st: StateView,
    date: CalendarDate,
) -> bool {
    exists|template: Seq<char>, now: LocalDateTime|
        #[trigger] filled(text, st, date, template, now) && template_meant(t, st, template)
            && time_told(t, now)
}

proof fn lemma_told_on(s: Talk, t: Talk, st: StateView, template: Seq<char>, now: LocalDateTime)
    requires
        s.replies == t.replies,
        s.asked.len() <= t.asked.len(),
        s.asked == t.asked.take(s.asked.len() as int),
    ensures
        template_meant(s, st, template) ==> template_meant(t, st, template),
        time_told(s, now) ==> time_told(t, now),
{
    assert forall|k: int| 0 <= k < s.asked.len() implies s.asked[k] == #[trigger] t.asked[k] by {
        assert(t.asked.take(s.asked.len() as int)[k] == t.asked[k]);
    }
    if st.config.entry_template is Some {
        let place = template_place(st, trimmed(st.config.entry_template->0));
        if template_read(s, place, template) {
            let k = choose|k: int|
                0 <= k < s.asked.len() && #[trigger] s.asked[k] == Ask::Read(place) && template
                    == text_or_default(s.replies[k]);
            assert(t.asked[k] == Ask::Read(place));
        }
    }
    if time_told(s, now) {
        let k = choose|k: int|
            0 <= k < s.asked.len() && #[trigger] s.asked[k] == Ask::Now && (s.replies[k] matches
                Answer::Content(Ok(raw)) && moment_reading(trimmed(raw)) == Ok::<
                LocalDateTime,
                Seq<char>,
            >(now));
        assert(t.asked[k] == Ask::Now);
    }
}

/// What is written for an entry that is missing.
proof fn lemma_entry_text(files: Files, s: Talk, st: StateView, date: CalendarDate)
    requires
        entry_created(s, st, date).1 == Outcome::Got(true),
    ensures
        made_from_template(
            entry_created(s, st, date).0,
            files_now(files, entry_created(s, st, date).0)[st.at(
                paths_of(st.folder(), date).entry,
            )],
            st,
            date,
        ),
{
    let paths = paths_of(st.folder(), date);
    let place = st.at(paths.entry);
    let touched = Set::empty().insert(place);
    let (s1, o1) = exists_asked(s, place);
    let (s2, o2) = template_found(s1, st);
    lemma_template_found(files, s1, st, touched);
    let template = o2->Got_0;
    let (s3, o3) = now_asked(s2);
    lemma_now(files, s2, touched);
    let now = o3->Got_0;
    let text = rendered(
        template,
        entry_title(date),
        date,
        reference(paths.entry, paths.month_index),
        now,
    );
    let (s4, o4) = write_asked(s3, place, text);
    lemma_write(files, s3, place, text, touched);
    assert(entry_created(s, st, date).0 == s4);
    assert(template_meant(s2, st, template)) by {
        if st.config.entry_template is Some {
            let setting = trimmed(st.config.entry_template->0);
            if !is_template(setting) {
                let k = s1.asked.len() as int;
                assert(s2.asked[k] == Ask::Read(template_place(st, setting)));
                assert(template == text_or_default(s2.replies[k]));
            }
        }
    }
    lemma_then(files, s2, s3, s4, touched);
    lemma_told_on(s2, s4, st, template, now);
    assert(time_told(s3, now)) by {
        assert(s3.asked[s2.asked.len() as int] == Ask::Now);
    }
    lemma_told_on(s3, s4, st, template, now);
    assert(filled(text, st, date, template, now));
}

/// A new entry is made from the template that the settings stand for, with the
/// reference to its month index set.
pub proof fn law_new_entry_template(files: Files, s: Talk, st: StateView, date: CalendarDate)
    requires
        date.valid(),
        truthful(files, entry_ensured(s, st, date).0),
        entry_ensured(s, st, date).1 is Got,
        !files_now(files, s).dom().contains(st.at(paths_of(st.folder(), date).entry)),
    ensures
        rewritten_from_template(
            entry_ensured(s, st, date).0,
            files_now(files, entry_ensured(s, st, date).0)[st.at(
                paths_of(st.folder(), date).entry,
            )],
            st,
            date,
        ),
{
    law_entry_ensured(files, s, st, date);
    let (s1, o1) = first_existing(s, st, root_rel_candidates(st.root));
    let root_index = o1->Got_0;
    let (s2, o2) = indexes_ensured(s1, st, date, root_index);
    let (s3, o3) = indexes_linked(s2, st, date, root_index);
    let (s4, o4) = entry_created(s3, st, date);
    let (s5, o5) = entry_linked(s4, st, date);
    let place = st.at(paths_of(st.folder(), date).entry);
    lemma_entry_created(files, s3, st, date);
    lemma_entry_linked(files, s4, st, date);
    assert(o4 == Outcome::Got(true));
    lemma_entry_text(files, s3, st, date);
    let text = files_now(files, s4)[place];
    let (template, now) = choose|template: Seq<char>, now: LocalDateTime|
        #[trigger] filled(text, st, date, template, now) && template_meant(s4, st, template)
            && time_told(s4, now);
    lemma_told_on(s4, s5, st, template, now);
    assert(made_from_template(s5, text, st, date));
}

/// Whether a text was made from the template that the settings stand for and then
/// got the reference to its month index.
pub open spec fn rewritten_from_template(
    t: Talk,
    new_text: Seq<char>,
    st: StateView,
    date: CalendarDate,
) -> bool {
    let paths = paths_of(st.folder(), date);
    exists|text: Seq<char>|
        made_from_template(t, text, st, date) && #[trigger] rewritten(
            text,
            new_text,
            reference(paths.entry, paths.month_index),
        )
}

/// Whether the host fails to read only files that are not there.
pub open spec fn reads_what_is_there(files: Files, t: Talk) -> bool {
    forall|k: int|
        0 <= k < t.asked.len() && (#[trigger] t.asked[k] matches Ask::Read(path) && files_now(
            files,
            Talk { replies: t.replies, asked: t.asked.take(k) },
        ).dom().contains(path)) ==> (t.replies[k] matches Answer::Content(Ok(_)))
}

/// The template of a setting that leads to a file is what that file holds; the
/// default one where there is no such file, or a blank one.
pub proof fn law_template_file(files: Files, s: Talk, st: StateView)
    requires
        st.config.entry_template is Some,
        !is_template(trimmed(st.config.entry_template->0)),
        truthful(files, template_found(s, st).0),
        reads_what_is_there(files, template_found(s, st).0),
        template_found(s, st).1 !is Waiting,
    ensures
        ({
            let place = template_place(st, trimmed(st.config.entry_template->0));
            let then = files_now(files, s);
            template_found(s, st).1 == Outcome::Got(
                if then.dom().contains(place) && trimmed(then[place]).len() > 0 {
                    then[place]
                } else {
                    default_template()
                },
            )
        }),
{
    let setting = trimmed(st.config.entry_template->0);
    let place = template_place(st, setting);
    let (t, o) = read_asked(s, place);
    lemma_read(files, s, place, Set::empty());
    let k = s.asked.len() as int;
    assert(t.asked[k] == Ask::Read(place));
    assert(t.asked.take(k) =~= s.asked);
    assert(Talk { replies: t.replies, asked: t.asked.take(k) } == s);
    if s.reply() is Some {
        lemma_noted(files, s, Ask::Read(place), Set::empty());
    }
}

/// Seeing to the same date twice creates its entry at most once.
pub proof fn law_entry_created_once(
    files: Files,
    s: Talk,
    later: Talk,
    st: StateView,
    date: CalendarDate,
)
    requires
        date.valid(),
        entry_ensured(s, st, date).1 is Got,
        truthful(files, entry_ensured(s, st, date).0),
        entry_ensured(later, st, date).1 is Got,
        truthful(
            files_now(files, entry_ensured(s, st, date).0),
            entry_ensured(later, st, date).0,
        ),
        later.asked.len() == 0,
    ensures
        entry_ensured(later, st, date).1 == Outcome::Got(
            (paths_of(st.folder(), date).entry, false),
        ),
{
    law_entry_ensured(files, s, st, date);
    law_entry_ensured(files_now(files, entry_ensured(s, st, date).0), later, st, date);
}

// ---------------------------------------------------------------------------
// Settings of earlier versions
// ---------------------------------------------------------------------------

proof fn lemma_legacy_migrated(
    files: Files,
    s: Talk,
    config: ConfigView,
    candidates: Seq<Seq<char>>,
    any: bool,
    touched: Set<Seq<char>>,
)
    requires
        forall|i: int| 0 <= i < candidates.len() ==> touched.contains(#[trigger] candidates[i]),
    ensures
        goes_on(files, s, legacy_migrated(s, config, candidates, any).0, touched),
    decreases candidates.len(),
{
    lemma_here(files, s, touched);
    if candidates.len() > 0 {
        let path = candidates[0];
        let rest = candidates.drop_first();
        assert forall|i: int| 0 <= i < rest.len() implies touched.contains(#[trigger] rest[i]) by {
            assert(rest[i] == candidates[i + 1]);
        }
        let (s1, o1) = exists_asked(s, path);
        lemma_exists(files, s, path, touched);
        match o1 {
            Outcome::Got(true) => {
                let (s2, o2) = markdown_asked(s1, path);
                lemma_markdown_asked(files, s1, path, touched);
                lemma_then(files, s, s1, s2, touched);
                if let Outcome::Got(file) = o2 {
                    let taken = legacy_taken(config, file.0);
                    if taken.found {
                        let (s3, o3) = markdown_written(s2, path, taken.fields, file.1);
                        lemma_markdown_written(files, s2, path, taken.fields, file.1, touched);
                        lemma_then(files, s, s2, s3, touched);
                        if o3 is Got {
                            let t = legacy_migrated(s3, taken.config, rest, true).0;
                            lemma_legacy_migrated(files, s3, taken.config, rest, true, touched);
                            lemma_then(files, s, s3, t, touched);
                        }
                    } else {
                        let t = legacy_migrated(s2, taken.config, rest, any).0;
                        lemma_legacy_migrated(files, s2, taken.config, rest, any, touched);
                        lemma_then(files, s, s2, t, touched);
                    }
                }
            },
            Outcome::Got(false) => {
                let t = legacy_migrated(s1, config, rest, any).0;
                lemma_legacy_migrated(files, s1, config, rest, any, touched);
                lemma_then(files, s, s1, t, touched);
            },
            _ => {},
        }
    }
}

/// Taking over the settings of earlier versions changes no file but those that
/// may hold them.
pub proof fn law_migration_touches(files: Files, s: Talk, st: StateView)
    ensures
        goes_on(files, s, migrated(s, st).0, root_candidates(st.root).to_set()),
{
    let touched = root_candidates(st.root).to_set();
    lemma_here(files, s, touched);
    if !st.config.migrated_legacy_config {
        let candidates = root_candidates(st.root);
        assert forall|i: int| 0 <= i < candidates.len() implies touched.contains(
            #[trigger] candidates[i],
        ) by {
            assert(candidates.contains(candidates[i]));
        }
        let (s1, o1) = legacy_migrated(s, st.config, candidates, false);
        lemma_legacy_migrated(files, s, st.config, candidates, false, touched);
        if let Outcome::Got((config, any)) = o1 {
            let after = ConfigView { migrated_legacy_config: true, ..config };
            let key = storage_key(st.root);
            if s1.reply() is Some {
                lemma_noted(files, s1, Ask::Save(key, after), touched);
            }
            lemma_here(files, s1, touched);
            lemma_then(files, s, s1, save_asked(s1, key, after).0, touched);
        }
    }
}

// ---------------------------------------------------------------------------
// Commands
// ---------------------------------------------------------------------------

proof fn lemma_command_names()
    ensures
        "EnsureDailyEntry"@.len() == 16,
        "GetAdjacentDailyEntry"@.len() == 21,
        "GetEntryState"@.len() == 13,
        "ImportEntriesToDaily"@.len() == 20,
        "ListDailyEntryDates"@.len() == 19,
        "OpenToday"@.len() == 9,
        "OpenYesterday"@.len() == 13,
        "OpenYesterday"@ != "GetEntryState"@,
        "UpdateConfig"@.len() == 12,
        "CliDaily"@.len() == 8,
        "get_component_html"@.len() == 18,
{
    reveal_strlit("EnsureDailyEntry");
    reveal_strlit("GetAdjacentDailyEntry");
    reveal_strlit("GetEntryState");
    reveal_strlit("ImportEntriesToDaily");
    reveal_strlit("ListDailyEntryDates");
    reveal_strlit("OpenToday");
    reveal_strlit("OpenYesterday");
    reveal_strlit("UpdateConfig");
    reveal_strlit("CliDaily");
    reveal_strlit("get_component_html");
    assert("OpenYesterday"@[0] == 'O' && "GetEntryState"@[0] == 'G');
}

/// Whether the next reply tells this time.
pub open spec fn tells(s: Talk, now: LocalDateTime) -> bool {
    s.reply() matches Some(Answer::Content(Ok(raw))) && moment_reading(trimmed(raw)) == Ok::<
        LocalDateTime,
        Seq<char>,
    >(now)
}

/// Whether a reply names the entry of a date, says whether it was missing, and the
/// entry is there now.
pub open spec fn entry_told(
    reply: JsonView,
    then: Files,
    now: Files,
    st: StateView,
    date: CalendarDate,
) -> bool {
    let path = paths_of(st.folder(), date).entry;
    &&& reply.text_field("path"@) == Some(path)
    &&& reply.bool_field("created"@) == Some(!then.dom().contains(st.at(path)))
    &&& now.dom().contains(st.at(path))
}

/// `EnsureDailyEntry` sees to the entry of the date that is given, or of today, and
/// tells its path, its date and whether it is new. It fails only where the text is
/// no date, or seeing to the entry does; the state stays as it is.
pub proof fn law_ensure_command(
    files: Files,
    p: ProgressView,
    st: StateView,
    params: JsonView,
    panel: Seq<char>,
    now: LocalDateTime,
    date: CalendarDate,
)
    requires
        date.valid(),
        tells(p.talk.fresh(), now),
        any_input_date(input_text(params.text_field("date"@)), now) == Some(date),
    ensures
        ({
            let (q, o) = command_run(p, st, "EnsureDailyEntry"@, params, panel);
            let run = entry_ensured(p.talk.fresh().noted(Ask::Now), st, date);
            &&& q == p.in_talk(run.0)
            &&& o matches Outcome::Failed(message) ==> run.1 == Outcome::<(Seq<char>, bool)>::Failed(
                message,
            )
            &&& o matches Outcome::Got((reply, after)) ==> {
                &&& after == st
                &&& reply.text_field("date"@) == Some(iso_text(date))
                &&& truthful(files, q.talk) ==> entry_told(
                    reply,
                    files,
                    files_now(files, q.talk),
                    st,
                    date,
                )
            }
        }),
{
    lemma_command_names();
    let s = p.talk.fresh();
    let told = s.noted(Ask::Now);
    let (t, o) = entry_ensured(told, st, date);
    lemma_now(files, s, Set::empty());
    assert(now_asked(s) == (told, Outcome::Got(now)));
    law_entry_ensured(files, told, st, date);
    if let Outcome::Got((path, created)) = o {
        law_entry_reply(path, created, date);
    }
}

/// A date that cannot be read is told, and nothing is asked but the time.
pub proof fn law_no_date(
    p: ProgressView,
    st: StateView,
    command: Seq<char>,
    params: JsonView,
    panel: Seq<char>,
    now: LocalDateTime,
)
    requires
        command == "EnsureDailyEntry"@ || command == "CliDaily"@,
        tells(p.talk.fresh(), now),
        any_input_date(input_text(params.text_field("date"@)), now) is None,
    ensures
        command_run(p, st, command, params, panel) == (
            p.in_talk(p.talk.fresh().noted(Ask::Now)),
            Outcome::<(JsonView, StateView)>::Failed(
                "Invalid date format: "@ + input_text(params.text_field("date"@)),
            ),
        ),
{
    lemma_command_names();
    assert(now_asked(p.talk.fresh()) == (p.talk.fresh().noted(Ask::Now), Outcome::Got(now)));
}

/// `OpenToday` sees to the entry of the current date, `OpenYesterday` to that of the
/// day before it. The reply opens that entry.
pub proof fn law_open_commands(
    files: Files,
    p: ProgressView,
    st: StateView,
    command: Seq<char>,
    params: JsonView,
    panel: Seq<char>,
    now: LocalDateTime,
    date: CalendarDate,
)
    requires
        now.valid(),
        date.valid(),
        tells(p.talk.fresh(), now),
        command == "OpenToday"@ && date.number() == now.date.number() || command
            == "OpenYesterday"@ && date.number() + 1 == now.date.number(),
    ensures
        ({
            let (q, o) = command_run(p, st, command, params, panel);
            let run = entry_ensured(p.talk.fresh().noted(Ask::Now), st, date);
            &&& q == p.in_talk(run.0)
            &&& o matches Outcome::Failed(message) ==> run.1 == Outcome::<(Seq<char>, bool)>::Failed(
                message,
            )
            &&& o matches Outcome::Got((reply, after)) ==> {
                &&& after == st
                &&& reply.text_field("__diaryx_cli_action"@) == Some("open_entry"@)
                &&& truthful(files, q.talk) ==> entry_told(
                    reply,
                    files,
                    files_now(files, q.talk),
                    st,
                    date,
                )
            }
        }),
{
    lemma_command_names();
    let s = p.talk.fresh();
    let told = s.noted(Ask::Now);
    if command == "OpenToday"@ {
        law_number_identifies(date, now.date);
    } else {
        law_previous_day(now.date);
        law_number_identifies(date, now.date.previous());
    }
    let (t, o) = entry_ensured(told, st, date);
    lemma_now(files, s, Set::empty());
    assert(now_asked(s) == (told, Outcome::Got(now)));
    law_entry_ensured(files, told, st, date);
    if let Outcome::Got((path, created)) = o {
        law_open_reply(path, created);
    }
}

/// `CliDaily` sees to the same entry as `EnsureDailyEntry`. The reply prints what the
/// entry holds then, where that is asked for, and opens the entry otherwise.
pub proof fn law_cli_command(
    files: Files,
    p: ProgressView,
    st: StateView,
    params: JsonView,
    panel: Seq<char>,
    now: LocalDateTime,
    date: CalendarDate,
)
    requires
        date.valid(),
        tells(p.talk.fresh(), now),
        any_input_date(input_text(params.text_field("date"@)), now) == Some(date),
        truthful(files, command_run(p, st, "CliDaily"@, params, panel).0.talk),
    ensures
        ({
            let (q, o) = command_run(p, st, "CliDaily"@, params, panel);
            let place = st.at(paths_of(st.folder(), date).entry);
            let print = params.bool_field("print"@) == Some(true);
            let run = entry_ensured(p.talk.fresh().noted(Ask::Now), st, date);
            &&& print && run.1 is Got && run.0.reply() is Some ==> q == p.in_talk(
                run.0.noted(Ask::Read(place)),
            ) || o is Waiting
            &&& !print || run.1 !is Got ==> q == p.in_talk(run.0)
            &&& o matches Outcome::Failed(message) ==> run.1 == Outcome::<(Seq<char>, bool)>::Failed(
                message,
            ) || (print && run.1 is Got && run.0.reply() == Some(Answer::Content(Err(message))))
            &&& o matches Outcome::Got((reply, after)) ==> {
                &&& after == st
                &&& entry_told(reply, files, files_now(files, q.talk), st, date)
                &&& print ==> reply.text_field("__diaryx_cli_action"@) == Some("print"@)
                    && reply.text_field("text"@) == Some(files_now(files, q.talk)[place])
                &&& !print ==> reply.text_field("__diaryx_cli_action"@) == Some("open_entry"@)
            }
        }),
{
    lemma_command_names();
    let s = p.talk.fresh();
    let told = s.noted(Ask::Now);
    let (t, o) = entry_ensured(told, st, date);
    lemma_now(files, s, Set::empty());
    assert(now_asked(s) == (told, Outcome::Got(now)));
    law_entry_ensured(files, told, st, date);
    if let Outcome::Got((path, created)) = o {
        let (t1, o1) = read_asked(t, st.at(path));
        lemma_read(files, t, st.at(path), Set::empty());
        law_open_reply(path, created);
        if let Outcome::Got(content) = o1 {
            law_print_reply(content, path, created);
        }
    }
}

/// Whether a path names the file `rel` of a workspace: as a path below it, or in the
/// file system where the root is an absolute folder.
pub open spec fn names_file(path: Seq<char>, rel: Seq<char>, st: StateView) -> bool {
    path == rel || (path == st.at(rel) && folder_root(st.root))
}

pub(crate) proof fn lemma_named_file(path: Seq<char>, rel: Seq<char>, st: StateView)
    requires
        settled(rel),
        names_file(path, rel, st),
    ensures
        workspace_rel(path, st.root) == rel,
{
    if path == rel {
        law_rel_path_relative(rel);
    } else {
        law_fs_path_round_trip(rel, st.root);
    }
}

/// `GetAdjacentDailyEntry` leads from the entry of a date to that of the day before
/// where the direction is `prev` or `previous`, else to that of the day after: it
/// sees to the entry of that day unless it is asked not to, and then tells its path
/// below the same folders.
pub proof fn law_adjacent_command(
    files: Files,
    p: ProgressView,
    st: StateView,
    params: JsonView,
    panel: Seq<char>,
    path: Seq<char>,
    folder: Seq<char>,
    date: CalendarDate,
    target: CalendarDate,
)
    requires
        date.valid(),
        target.valid(),
        params.text_field("path"@) == Some(path),
        settled(scoped(folder, entry_path(date))),
        names_file(path, scoped(folder, entry_path(date)), st),
        target.number() == if params.text_field("direction"@) == Some("prev"@)
            || params.text_field("direction"@) == Some("previous"@) {
            date.number() - 1
        } else {
            date.number() + 1
        },
    ensures
        ({
            let (q, o) = command_run(p, st, "GetAdjacentDailyEntry"@, params, panel);
            let run = entry_ensured(p.talk.fresh(), st, target);
            if params.bool_field("ensure"@) == Some(false) {
                &&& q == p.in_talk(p.talk.fresh())
                &&& o matches Outcome::Got((reply, after)) && after == st && reply.text_field(
                    "path"@,
                ) == Some(scoped(joined(path_parts(folder), "/"@), entry_path(target)))
                    && reply.field("created"@) is None
            } else {
                &&& q == p.in_talk(run.0)
                &&& o matches Outcome::Failed(message) ==> run.1 == Outcome::<
                    (Seq<char>, bool),
                >::Failed(message)
                &&& o matches Outcome::Got((reply, after)) ==> {
                    &&& after == st
                    &&& reply.text_field("date"@) == Some(iso_text(target))
                    &&& truthful(files, q.talk) ==> entry_told(
                        reply,
                        files,
                        files_now(files, q.talk),
                        st,
                        target,
                    )
                }
            }
        }),
{
    lemma_command_names();
    let rel = scoped(folder, entry_path(date));
    lemma_named_file(path, rel, st);
    law_entry_date(folder, date);
    let back = params.text_field("direction"@) == Some("prev"@) || params.text_field("direction"@)
        == Some("previous"@);
    law_number_range(target);
    if back {
        assert(!date.is_first());
        law_previous_day(date);
        law_number_identifies(target, date.previous());
    } else {
        assert(!date.is_last());
        law_next_day(date);
        law_number_identifies(target, date.next());
    }
    law_base_folder(folder, date);
    let adjacent = scoped(joined(path_parts(folder), "/"@), entry_path(target));
    law_entry_date(joined(path_parts(folder), "/"@), target);
    law_path_reply(adjacent);
    let s = p.talk.fresh();
    let (t, o) = entry_ensured(s, st, target);
    law_entry_ensured(files, s, st, target);
    if let Outcome::Got((path, created)) = o {
        law_entry_reply(path, created, target);
    }
}

/// From the first day of the calendar there is no way back, and from the last one
/// none on.
pub proof fn law_adjacent_ends(
    p: ProgressView,
    st: StateView,
    params: JsonView,
    panel: Seq<char>,
    path: Seq<char>,
    folder: Seq<char>,
    date: CalendarDate,
)
    requires
        date.valid(),
        params.text_field("path"@) == Some(path),
        settled(scoped(folder, entry_path(date))),
        names_file(path, scoped(folder, entry_path(date)), st),
        if params.text_field("direction"@) == Some("prev"@) || params.text_field("direction"@)
            == Some("previous"@) {
            date.is_first()
        } else {
            date.is_last()
        },
    ensures
        command_run(p, st, "GetAdjacentDailyEntry"@, params, panel) == (
            p.in_talk(p.talk.fresh()),
            Outcome::<(JsonView, StateView)>::Failed("Path is not a daily entry path"@),
        ),
{
    lemma_command_names();
    lemma_named_file(path, scoped(folder, entry_path(date)), st);
    law_entry_date(folder, date);
}

/// `GetAdjacentDailyEntry` fails without a path, and with one that does not end in
/// `YYYY/MM/YYYY-MM-DD.md` for a date; it asks nothing then.
pub proof fn law_adjacent_of_others(
    p: ProgressView,
    st: StateView,
    params: JsonView,
    panel: Seq<char>,
)
    requires
        params.text_field("path"@) matches Some(path) ==> forall|folder: Seq<char>,
        date: CalendarDate|
            date.valid() ==> path_parts(workspace_rel(path, st.root)) != #[trigger] path_parts(
                scoped(folder, entry_path(date)),
            ),
    ensures
        command_run(p, st, "GetAdjacentDailyEntry"@, params, panel) == (
            p.in_talk(p.talk.fresh()),
            Outcome::<(JsonView, StateView)>::Failed(
                if params.text_field("path"@) is None {
                    "GetAdjacentDailyEntry requires `path`"@
                } else {
                    "Path is not a daily entry path"@
                },
            ),
        ),
{
    lemma_command_names();
    if let Some(path) = params.text_field("path"@) {
        let rel = workspace_rel(path, st.root);
        if let Some(date) = date_of_path(rel) {
            law_date_of_path(rel);
            let folder = joined(path_parts(rel).take(path_parts(rel).len() - 3), "/"@);
            assert(path_parts(rel) == path_parts(scoped(folder, entry_path(date))));
        }
    }
}

/// `GetEntryState` says that the path of an entry is one, of which date it is, and
/// that it is of today just when its date is the current one.
pub proof fn law_state_command(
    p: ProgressView,
    st: StateView,
    params: JsonView,
    panel: Seq<char>,
    path: Seq<char>,
    folder: Seq<char>,
    date: CalendarDate,
    now: LocalDateTime,
)
    requires
        date.valid(),
        now.valid(),
        tells(p.talk.fresh(), now),
        params.text_field("path"@) == Some(path),
        settled(scoped(folder, entry_path(date))),
        names_file(path, scoped(folder, entry_path(date)), st),
    ensures
        ({
            let (q, o) = command_run(p, st, "GetEntryState"@, params, panel);
            &&& q == p.in_talk(p.talk.fresh().noted(Ask::Now))
            &&& o matches Outcome::Got((reply, after)) && after == st && reply.bool_field(
                "is_daily"@,
            ) == Some(true) && reply.bool_field("is_today"@) == Some(
                date.number() == now.date.number(),
            ) && reply.text_field("date"@) == Some(iso_text(date))
        }),
{
    lemma_command_names();
    lemma_named_file(path, scoped(folder, entry_path(date)), st);
    law_entry_date(folder, date);
    law_state_replies(date, now.date);
    assert(now_asked(p.talk.fresh()) == (p.talk.fresh().noted(Ask::Now), Outcome::Got(now)));
    if date.number() == now.date.number() {
        law_number_identifies(date, now.date);
    }
}

/// `GetEntryState` says of every path that does not end in `YYYY/MM/YYYY-MM-DD.md` for
/// a date that it is no entry, and asks nothing. Without a path it fails.
pub proof fn law_state_of_others(
    p: ProgressView,
    st: StateView,
    params: JsonView,
    panel: Seq<char>,
)
    requires
        params.text_field("path"@) matches Some(path) ==> forall|folder: Seq<char>,
        date: CalendarDate|
            date.valid() ==> path_parts(workspace_rel(path, st.root)) != #[trigger] path_parts(
                scoped(folder, entry_path(date)),
            ),
    ensures
        ({
            let (q, o) = command_run(p, st, "GetEntryState"@, params, panel);
            &&& q == p.in_talk(p.talk.fresh())
            &&& params.text_field("path"@) is None ==> o == Outcome::<
                (JsonView, StateView),
            >::Failed("GetEntryState requires `path`"@)
            &&& params.text_field("path"@) is Some ==> (o matches Outcome::Got((reply, after))
                && after == st && reply.bool_field("is_daily"@) == Some(false)
                && reply.bool_field("is_today"@) == Some(false) && reply.field("date"@) == Some(
                JsonView::Null,
            ))
        }),
{
    lemma_command_names();
    law_state_replies(
        CalendarDate { year: 1, month: 1, day: 1 },
        CalendarDate { year: 1, month: 1, day: 1 },
    );
    if let Some(path) = params.text_field("path"@) {
        let rel = workspace_rel(path, st.root);
        if let Some(date) = date_of_path(rel) {
            law_date_of_path(rel);
            let folder = joined(path_parts(rel).take(path_parts(rel).len() - 3), "/"@);
            assert(path_parts(rel) == path_parts(scoped(folder, entry_path(date))));
        }
    }
}

// ---------------------------------------------------------------------------
// Printing
// ---------------------------------------------------------------------------

/// What is printed of an entry is what its file holds then.
pub proof fn law_print_shows_entry(
    files: Files,
    s: Talk,
    st: StateView,
    params: JsonView,
    content: Seq<char>,
    path: Seq<char>,
    created: bool,
)
    requires
        params.bool_field("print"@) == Some(true),
        truthful(files, cli_command(s, st, params).0),
        cli_command(s, st, params).1 == Outcome::Got(print_reply(content, path, created)),
    ensures
        files_now(files, cli_command(s, st, params).0).dom().contains(st.at(path)),
        files_now(files, cli_command(s, st, params).0)[st.at(path)] == content,
{
    let (s1, o1) = date_asked(s, params.text_field("date"@));
    let date = o1->Got_0;
    let (s2, o2) = entry_ensured(s1, st, date);
    let (p, c) = o2->Got_0;
    let (s3, o3) = read_asked(s2, st.at(p));
    lemma_read(files, s2, st.at(p), Set::empty());
    let printed = print_reply(o3->Got_0, p, c);
    assert(printed == print_reply(content, path, created));
    assert(printed->Object_0[1] == ("text"@, JsonView::Text(o3->Got_0)));
    assert(printed->Object_0[2] == ("path"@, JsonView::Text(p)));
    assert(print_reply(content, path, created)->Object_0[1] == ("text"@, JsonView::Text(content)));
    assert(print_reply(content, path, created)->Object_0[2] == ("path"@, JsonView::Text(path)));
}

// ---------------------------------------------------------------------------
// Listing
// ---------------------------------------------------------------------------

proof fn lemma_prefixes_then(u: Seq<char>, z: Seq<char>)
    requires
        u.len() == 0 || u.last() == '/',
        z.len() > 0,
        z[0] != '.',
    ensures
        without_prefixes(u + z, "./"@) == without_prefixes(u, "./"@) + z,
        without_prefixes(u, "./"@).len() == 0 || without_prefixes(u, "./"@).last() == '/',
    decreases u.len(),
{
    reveal_strlit("./");
    let part = "./"@;
    let s = u + z;
    if u.len() >= 2 {
        assert(part.is_prefix_of(s) <==> part.is_prefix_of(u)) by {
            assert(s.subrange(0, 2) =~= u.subrange(0, 2));
        }
        if part.is_prefix_of(u) {
            assert(s.skip(2) =~= u.skip(2) + z);
            lemma_prefixes_then(u.skip(2), z);
        }
    } else {
        assert(s[0] != '.');
        assert(!part.is_prefix_of(s)) by {
            if part.is_prefix_of(s) {
                assert(s[0] == part[0]);
            }
        }
    }
}

proof fn lemma_front_then(u: Seq<char>, z: Seq<char>)
    requires
        u.len() == 0 || u.last() == '/',
        z.len() > 0,
        z[0] != '/',
    ensures
        without_front(u + z, slashes()) == without_front(u, slashes()) + z,
        without_front(u, slashes()).len() == 0 || without_front(u, slashes()).last() == '/',
    decreases u.len(),
{
    let s = u + z;
    if u.len() == 0 {
        assert(s =~= z);
        assert(without_front(u, slashes()) + z =~= z);
    } else if slashes()(s[0]) {
        assert(s.drop_first() =~= u.drop_first() + z);
        lemma_front_then(u.drop_first(), z);
    }
}

/// What stands below a folder in the workspace stands below it in the file
/// system.
proof fn lemma_place_below(st: StateView, y: Seq<char>, z: Seq<char>)
    requires
        y.len() == 0 || y.last() == '/',
        z.len() > 0,
        z[0] != '.',
        z[0] != '/',
        !z.contains('\\'),
    ensures
        st.at(y + z) == st.at(y) + z,
{
    let u = char_replaced(y, '\\', '/');
    assert forall|i: int| 0 <= i < z.len() implies z[i] != '\\' by {
        assert(z.contains(z[i]));
    }
    assert(char_replaced(y + z, '\\', '/') =~= u + z);
    lemma_prefixes_then(u, z);
    lemma_front_then(without_prefixes(u, "./"@), z);
    let r = rel_path(y);
    assert(rel_path(y + z) == r + z);
    law_rel_path_relative(y);
    law_rel_path_relative(y + z);
    if st.root is Some {
        let root = st.root->0;
        let folder = if ".md"@.is_suffix_of(root) && parent_of(root) is Some {
            parent_of(root)->0
        } else {
            root
        };
        assert(path_joined(folder, r + z) =~= path_joined(folder, r) + z);
    }
}

/// Whether a year is written the same way in a path and in a listing.
pub open spec fn usual_year(year: int) -> bool {
    year <= -1000 || 1000 <= year <= 9999
}

proof fn lemma_four_digits(n: nat)
    requires
        n >= 1000,
    ensures
        numeral(n, 10).len() >= 4,
    decreases n,
{
    if n >= 10000 {
        lemma_four_digits(n / 10);
    } else {
        let (a, b, c) = (n / 10, n / 100, n / 1000);
        assert(a / 10 == b && b / 10 == c);
        assert(numeral(c, 10).len() == 1);
        assert(numeral(b, 10).len() == 2);
        assert(numeral(a, 10).len() == 3);
    }
}

pub(crate) proof fn lemma_usual_year(year: int)
    requires
        usual_year(year),
    ensures
        signed_numeral(year) == year_text(year),
{
    if year < 0 {
        lemma_four_digits((-year) as nat);
    } else {
        lemma_four_digits(year as nat);
    }
}

/// The place of an entry is below that of the folder of its month.
proof fn lemma_entry_below(st: StateView, date: CalendarDate)
    requires
        date.valid(),
        usual_year(date.year as int),
    ensures
        st.at(month_folder(st.folder(), date.year as int, date.month as nat)).is_prefix_of(
            st.at(paths_of(st.folder(), date).entry),
        ),
{
    let entry = paths_of(st.folder(), date).entry;
    let folder = month_folder(st.folder(), date.year as int, date.month as nat);
    law_effective_folder(st.config.entry_folder);
    lemma_usual_year(date.year as int);
    reveal_strlit("/");
    reveal_strlit("-");
    reveal_strlit(".md");
    lemma_padded_digits(date.year as nat, 4);
    lemma_padded_digits((-date.year) as nat, 4);
    lemma_padded_digits(date.month as nat, 2);
    lemma_padded_digits(date.day as nat, 2);
    let file = iso_text(date) + ".md"@;
    assert(entry =~= folder + file);
    assert(folder.last() == '/');
    assert forall|i: int| 0 <= i < file.len() implies file[i] != '\\' by {}
    lemma_place_below(st, folder, file);
    let (place, prefix) = (st.at(entry), st.at(folder));
    assert(place.subrange(0, prefix.len() as int) =~= prefix);
}

/// A file that is there is listed.
proof fn lemma_file_listed(
    files: Files,
    u: Talk,
    st: StateView,
    date: CalendarDate,
    days: Seq<u32>,
    place: Seq<char>,
)
    requires
        date.valid(),
        files_now(files, u).dom().contains(place),
        st.at(month_folder(st.folder(), date.year as int, date.month as nat)).is_prefix_of(place),
        date_of_path(place) == Some(date),
        days_found(u, st, date.year as int, date.month as nat).1 == Outcome::Got(days),
        truthful(files, days_found(u, st, date.year as int, date.month as nat).0),
        files_asked(
            tree_days(u, st, date.year as int, date.month as nat).0,
            st.at(month_folder(st.folder(), date.year as int, date.month as nat)),
        ).1 is Got,
    ensures
        days.contains(date.day),
{
    let (year, month) = (date.year as int, date.month as nat);
    let prefix = st.at(month_folder(st.folder(), year, month));
    let (t1, o1) = tree_days(u, st, year, month);
    let (t2, o2) = files_asked(t1, prefix);
    lemma_tree_days_changes_nothing(files, u, st, year, month);
    lemma_noted(files, t1, Ask::Files(prefix), Set::empty());
    let list = o2->Got_0;
    assert(list.contains(place));
    let i = list.index_of(place);
    assert(is_day(date_of_path(list[i]), year, month as int, date.day));
    law_filed_days(list, year, month as int, date.day);
    let filed = filed_days(list, year, month as int);
    let all = o1->Got_0 + filed;
    let k = filed.index_of(date.day);
    assert(all[o1->Got_0.len() + k] == date.day);
    lemma_days_up_to(all, 31);
}

/// An entry that was seen to is listed among the days of its month. The year is
/// written the same way in paths and listings, the host lists the files of the
/// month, and the place of the entry reads as its date.
pub proof fn law_entry_listed(
    files: Files,
    s: Talk,
    u: Talk,
    st: StateView,
    date: CalendarDate,
    days: Seq<u32>,
)
    requires
        date.valid(),
        usual_year(date.year as int),
        entry_ensured(s, st, date).1 is Got,
        truthful(files, entry_ensured(s, st, date).0),
        u.asked.len() == 0,
        days_found(u, st, date.year as int, date.month as nat).1 == Outcome::Got(days),
        truthful(
            files_now(files, entry_ensured(s, st, date).0),
            days_found(u, st, date.year as int, date.month as nat).0,
        ),
        files_asked(
            tree_days(u, st, date.year as int, date.month as nat).0,
            st.at(month_folder(st.folder(), date.year as int, date.month as nat)),
        ).1 is Got,
        date_of_path(st.at(paths_of(st.folder(), date).entry)) == Some(date),
    ensures
        days.contains(date.day),
{
    let now = files_now(files, entry_ensured(s, st, date).0);
    let place = st.at(paths_of(st.folder(), date).entry);
    assert(now.dom().contains(place)) by {
        law_entry_ensured(files, s, st, date);
    }
    lemma_entry_below(st, date);
    lemma_file_listed(now, u, st, date, days, place);
}

/// Whether one of these is a file of this day of a month.
pub open spec fn has_file_of_day(list: Seq<Seq<char>>, year: int, month: int, day: u32) -> bool {
    exists|i: int|
        0 <= i < list.len() && is_day(date_of_path(#[trigger] list[i]), year, month, day)
}

/// Whether the request `k` of a session has listed a file of a day.
pub open spec fn day_filed(t: Talk, k: int, year: int, month: int, day: u32) -> bool {
    t.asked[k] is Files && (t.replies[k] matches Answer::Files(Ok(list)) && has_file_of_day(
        list,
        year,
        month,
        day,
    ))
}

/// Whether a session was given a file of this day of a month, or has read an index
/// that lists one.
pub open spec fn day_seen(t: Talk, st: StateView, year: int, month: int, day: u32) -> bool {
    exists|k: int| 0 <= k < t.asked.len() && #[trigger] day_at(t, k, st, year, month, day)
}

/// Whether the request `k` of a session has shown a day.
pub open spec fn day_at(t: Talk, k: int, st: StateView, year: int, month: int, day: u32) -> bool {
    day_filed(t, k, year, month, day) || day_read(t, k, st, year, month, day)
}

/// Whether the contents of an index lead to an entry of this day.
pub open spec fn lists_day(
    text: Seq<char>,
    index: Seq<char>,
    year: int,
    month: int,
    day: u32,
) -> bool {
    markdown_reading(text) matches Ok(file) && exists|i: int|
        0 <= i < sequence_of(file.0, "contents"@).len() && is_day(
            listed_date(resolved(#[trigger] sequence_of(file.0, "contents"@)[i], index)),
            year,
            month,
            day,
        )
}

/// The days of a month come in order, none twice. A day is among them only if a file
/// of it was found or the index of the month lists it, and every day of which the
/// host has listed a file is.
pub proof fn law_days_found(s: Talk, st: StateView, year: int, month: nat, day: u32)
    requires
        days_found(s, st, year, month).1 is Got,
    ensures
        ({
            let (t, o) = days_found(s, st, year, month);
            let days = o->Got_0;
            let (u, listed) = files_asked(
                tree_days(s, st, year, month).0,
                st.at(month_folder(st.folder(), year, month)),
            );
            &&& t == u
            &&& forall|i: int, j: int| 0 <= i < j < days.len() ==> days[i] < days[j]
            &&& days.contains(day) ==> 1 <= day <= 31 && day_seen(t, st, year, month as int, day)
            &&& 1 <= day <= 31 && (listed matches Outcome::Got(list) && has_file_of_day(
                list,
                year,
                month as int,
                day,
            )) ==> days.contains(day)
        }),
{
    let (s1, o1) = tree_days(s, st, year, month);
    let prefix = st.at(month_folder(st.folder(), year, month));
    let (t, o2) = files_asked(s1, prefix);
    let tree = o1->Got_0;
    let days = days_found(s, st, year, month).1->Got_0;
    let m = month as int;
    let all = match o2 {
        Outcome::Got(list) => tree + filed_days(list, year, m),
        _ => tree,
    };
    lemma_days_up_to(all, 31);
    assert(days == days_up_to(all, 31));
    if let Outcome::Got(list) = o2 {
        law_filed_days(list, year, m, day);
        assert(has_file_of_day(list, year, m, day) <==> filed_days(list, year, m).contains(day));
        let filed = filed_days(list, year, m);
        if filed.contains(day) {
            let k = filed.index_of(day);
            assert(all[tree.len() + k] == day);
        }
    }
    if days.contains(day) {
        assert(days_up_to(all, 31).contains(day));
        assert(all.contains(day));
        let j = all.index_of(day);
        assert(0 <= j < all.len() && all[j] == day);
        if j < tree.len() {
            assert(tree[j] == day);
            assert(tree.contains(day));
            lemma_tree_day(s, st, year, month, day);
            let k = choose|k: int|
                0 <= k < s1.asked.len() && #[trigger] day_read(s1, k, st, year, m, day);
            assert(t.asked[k] == s1.asked[k]);
            assert(day_read(t, k, st, year, m, day));
            assert(day_at(t, k, st, year, m, day));
        } else {
            let list = o2->Got_0;
            let filed = filed_days(list, year, m);
            assert(filed[j - tree.len()] == day);
            let i = choose|i: int|
                0 <= i < list.len() && is_day(date_of_path(#[trigger] list[i]), year, m, day);
            let k = s1.asked.len() as int;
            assert(t.asked[k] == Ask::Files(prefix));
            assert(t.replies[k] == Answer::Files(Ok(list)));
            assert(day_filed(t, k, year, m, day));
            assert(day_at(t, k, st, year, m, day));
        }
    }
}

/// Whether the request `k` of a session has read an index that lists a day.
pub open spec fn day_read(t: Talk, k: int, st: StateView, year: int, month: int, day: u32) -> bool {
    exists|index: Seq<char>|
        t.asked[k] == Ask::Read(#[trigger] st.at(index)) && (t.replies[k] matches Answer::Content(
            Ok(text),
        ) && lists_day(text, index, year, month, day))
}

proof fn lemma_tree_day(s: Talk, st: StateView, year: int, month: nat, day: u32)
    requires
        tree_days(s, st, year, month).1 matches Outcome::Got(days) && days.contains(day),
    ensures
        ({
            let t = tree_days(s, st, year, month).0;
            exists|k: int|
                0 <= k < t.asked.len() && #[trigger] day_read(t, k, st, year, month as int, day)
        }),
{
    let (s1, o1) = month_index_found(s, st, year, month);
    if let Outcome::Got(Some(index)) = o1 {
        let (t, o) = markdown_asked(s1, st.at(index));
        if let Outcome::Got(file) = o {
            let contents = sequence_of(file.0, "contents"@);
            law_listed_days(contents, index, year, month as int, day);
            let k = s1.asked.len() as int;
            assert(t.asked[k] == Ask::Read(st.at(index)));
            let text = t.replies[k]->Content_0->Ok_0;
            assert(lists_day(text, index, year, month as int, day));
            assert(day_read(t, k, st, year, month as int, day));
        }
    }
}

/// `ListDailyEntryDates` gives the days that are found of every month from one to
/// twelve, with the year, the month and the folder. Numbers of more than 32 bits count
/// by their last 32.
pub proof fn law_list_command(
    p: ProgressView,
    st: StateView,
    params: JsonView,
    panel: Seq<char>,
    year: i32,
    month: u32,
)
    requires
        1 <= month <= 12,
        params.int_field("year"@) matches Some(y) && (y == year || y as i64 as i32 == year),
        params.int_field("month"@) matches Some(m) && (m == month || m as i64 as u32 == month),
    ensures
        ({
            let (q, o) = command_run(p, st, "ListDailyEntryDates"@, params, panel);
            let run = days_found(p.talk.fresh(), st, year as int, month as nat);
            &&& q == p.in_talk(run.0)
            &&& o !is Failed
            &&& o matches Outcome::Got((reply, after)) ==> {
                &&& after == st
                &&& reply.field("year"@) == Some(JsonView::Int(year as int))
                &&& reply.field("month"@) == Some(JsonView::Int(month as int))
                &&& reply.text_field("folder"@) == Some(st.folder())
                &&& run.1 matches Outcome::Got(days) && reply.list_field("dates"@).len()
                    == days.len() && forall|i: int|
                    0 <= i < days.len() ==> (#[trigger] reply.list_field("dates"@)[i])
                        == JsonView::Int(days[i] as int)
            }
        }),
{
    lemma_command_names();
    assert(year as int as i64 as i32 == year);
    assert(month as int as i64 as u32 == month);
    if let Outcome::Got(days) = days_found(p.talk.fresh(), st, year as int, month as nat).1 {
        law_days_reply(year as int, month as int, days, st.folder());
    }
}

/// `ListDailyEntryDates` refuses every month beyond these, and fails without a year
/// or a month; it asks nothing then.
pub proof fn law_list_refused(p: ProgressView, st: StateView, params: JsonView, panel: Seq<char>)
    requires
        params.int_field("year"@) is Some && params.int_field("month"@) is Some
            ==> params.int_field("month"@)->0 == 0 || 12 < params.int_field("month"@)->0
            <= u32::MAX,
    ensures
        command_run(p, st, "ListDailyEntryDates"@, params, panel) == (
            p.in_talk(p.talk.fresh()),
            Outcome::<(JsonView, StateView)>::Failed(
                if params.int_field("year"@) is None {
                    "ListDailyEntryDates requires `year`"@
                } else if params.int_field("month"@) is None {
                    "ListDailyEntryDates requires `month`"@
                } else {
                    "month must be 1-12"@
                },
            ),
        ),
{
    lemma_command_names();
    if let Some(m) = params.int_field("month"@) {
        if params.int_field("year"@) is Some {
            assert(m as i64 as u32 == m);
        }
    }
}

/// An entry that was seen to is among the days of its month that
/// `ListDailyEntryDates` gives. The year is written the same way in paths and
/// listings, the host lists the files of the month, and the place of the entry reads
/// as its date.
pub proof fn law_listed_after_ensured(
    files: Files,
    s: Talk,
    p: ProgressView,
    st: StateView,
    date: CalendarDate,
    params: JsonView,
    panel: Seq<char>,
)
    requires
        date.valid(),
        usual_year(date.year as int),
        entry_ensured(s, st, date).1 is Got,
        truthful(files, entry_ensured(s, st, date).0),
        params.int_field("year"@) == Some(date.year as int),
        params.int_field("month"@) == Some(date.month as int),
        truthful(
            files_now(files, entry_ensured(s, st, date).0),
            command_run(p, st, "ListDailyEntryDates"@, params, panel).0.talk,
        ),
        files_asked(
            tree_days(p.talk.fresh(), st, date.year as int, date.month as nat).0,
            st.at(month_folder(st.folder(), date.year as int, date.month as nat)),
        ).1 is Got,
        date_of_path(st.at(paths_of(st.folder(), date).entry)) == Some(date),
        command_run(p, st, "ListDailyEntryDates"@, params, panel).1 is Got,
    ensures
        command_run(p, st, "ListDailyEntryDates"@, params, panel).1->Got_0.0.list_field(
            "dates"@,
        ).contains(JsonView::Int(date.day as int)),
{
    let u = p.talk.fresh();
    let (q, got) = command_run(p, st, "ListDailyEntryDates"@, params, panel);
    law_list_command(p, st, params, panel, date.year, date.month);
    let (t, o) = days_found(u, st, date.year as int, date.month as nat);
    let reply = got->Got_0.0;
    let days = o->Got_0;
    assert(q.talk == t);
    law_entry_listed(files, s, u, st, date, days);
    let i = days.index_of(date.day);
    assert(reply.list_field("dates"@)[i] == JsonView::Int(date.day as int));
}

proof fn lemma_tree_days_changes_nothing(
    files: Files,
    s: Talk,
    st: StateView,
    year: int,
    month: nat,
)
    ensures
        goes_on(files, s, tree_days(s, st, year, month).0, Set::empty()),
        files_now(files, tree_days(s, st, year, month).0) == files_now(files, s),
{
    let none = Set::<Seq<char>>::empty();
    let daily_index = scoped(st.folder(), "daily_index.md"@);
    lemma_here(files, s, none);
    let (s1, o1) = markdown_asked(s, st.at(daily_index));
    lemma_markdown_asked(files, s, st.at(daily_index), none);
    if let Outcome::Got(file) = o1 {
        let contents = sequence_of(file.0, "contents"@);
        if let Some(index) = first_of_year(contents, daily_index, year) {
            let (s2, o2) = markdown_asked(s1, st.at(index));
            lemma_markdown_asked(files, s1, st.at(index), none);
            lemma_then(files, s, s1, s2, none);
            if let Outcome::Got(year_file) = o2 {
                let months = sequence_of(year_file.0, "contents"@);
                if let Some(month_index) = first_of_month(months, index, month) {
                    let (s3, o3) = markdown_asked(s2, st.at(month_index));
                    lemma_markdown_asked(files, s2, st.at(month_index), none);
                    lemma_then(files, s, s2, s3, none);
                }
            }
        }
    }
}

} // verus!
