//! Where paths lead: parents, the root of a workspace, and links.

use std::collections::hash_map::DefaultHasher;

use vstd::prelude::*;
use vstd::std_specs::hash::DefaultHasherAdditionalSpecFns;
use vstd::utf8::encode_utf8;

use crate::daily_logic::{effective_folder, entry_path, paths_of};
use crate::date::{iso_text, two_digits, year_text, CalendarDate};
use crate::entries::StateView;
use crate::listing::resolved;
use crate::paths::{
    after_slash, ahead, dotted, file_name_of, first_len, parent_of, path_joined, rooted, tail_trimmed,
};
use crate::text::{
    char_replaced, joined, lemma_joined_concat, lemma_joined_without, lemma_padded_digits, numeral,
    padded, slashes, trimmed, without_front, without_prefixes,
};
use crate::workspace::{
    absolute, fs_path, law_rel_path_relative, lemma_after_slash_join, lemma_after_slash_none,
    lemma_names_ends, lemma_names_settled, lemma_tail_trimmed_shorter, link_target, names, path_difference, reference, rel_path,
    resolved_with, root_candidates, root_rel_candidates, root_scope, settled, storage_key, target_of,
    workspace_rel,
};

verus! {

/// Whether a text can stand between slashes as a name.
pub open spec fn is_name(s: Seq<char>) -> bool {
    s.len() > 0 && !s.contains('/') && s != "."@ && s != ".."@
}

/// Whether a path ends with a name.
pub open spec fn ends_named(p: Seq<char>) -> bool {
    p.len() > 0 && tail_trimmed(p) == p && p.last() != '/'
}

/// The parent of `head/name` is `head`, and its last component the name.
pub proof fn law_parent_spelled(head: Seq<char>, name: Seq<char>)
    requires
        is_name(name),
        ends_named(head),
    ensures
        parent_of(head + "/"@ + name) == Some(head),
        file_name_of(head + "/"@ + name) == Some(name),
{
    reveal_strlit("/");
    reveal_strlit(".");
    assert("/"@ =~= seq!['/']);
    let t = head + seq!['/'] + name;
    assert(head + "/"@ + name =~= t);
    assert(t.last() == name.last());
    assert(name.contains(name.last()));
    if t.last() == '.' && t[t.len() - 2] == '/' {
        if name.len() == 1 {
            assert(name =~= "."@);
        } else {
            assert(t[t.len() - 2] == name[name.len() - 2]);
            assert(name.contains(name[name.len() - 2]));
        }
    }
    assert(tail_trimmed(t) == t);
    lemma_after_slash_join(head, name);
    let up = t.take(after_slash(t));
    assert(up =~= head + seq!['/']);
    assert(up.drop_last() =~= head);
    assert(tail_trimmed(up) == tail_trimmed(head));
    assert(t.skip(after_slash(t)) =~= name);
}

/// A name alone has the empty folder as its parent, and one at the root has the root.
pub proof fn law_top_level(name: Seq<char>)
    requires
        is_name(name),
    ensures
        parent_of(name) == Some(Seq::<char>::empty()),
        file_name_of(name) == Some(name),
        file_name_of("/"@ + name) == Some(name),
{
    reveal_strlit("/");
    reveal_strlit(".");
    assert("/"@ =~= seq!['/']);
    assert(name.contains(name.last()));
    assert(name.contains(name[0]));
    if name.len() >= 2 {
        assert(name.contains(name[name.len() - 2]));
        assert(name.contains(name[1]));
    } else if name[0] == '.' {
        assert(name =~= "."@);
    }
    assert(tail_trimmed(name) == name);
    lemma_after_slash_none(name);
    assert(name.take(0) =~= Seq::<char>::empty());
    assert(tail_trimmed(Seq::<char>::empty()) == Seq::<char>::empty());
    assert(name.skip(0) =~= name);
    let none = Seq::<char>::empty();
    let t = none + seq!['/'] + name;
    assert("/"@ + name =~= t);
    assert(t.last() == name.last());
    if t.last() == '.' && t[t.len() - 2] == '/' && name.len() > 1 {
        assert(t[t.len() - 2] == name[name.len() - 2]);
    }
    assert(tail_trimmed(t) == t);
    lemma_after_slash_join(none, name);
    assert(t.skip(1) =~= name);
}

/// A path below the workspace may be written with `./` or a slash in front, or with
/// backslashes.
pub proof fn law_rel_path_spelled(rel: Seq<char>)
    requires
        settled(rel),
    ensures
        rel_path(rel) == rel,
        rel_path("/"@ + rel) == rel,
        rel_path("./"@ + rel) == rel,
        forall|p: Seq<char>| char_replaced(p, '\\', '/') == rel ==> #[trigger] rel_path(p) == rel,
{
    reveal_strlit("/");
    reveal_strlit("./");
    law_rel_path_relative(rel);
    assert(char_replaced(rel, '\\', '/') =~= rel) by {
        law_rel_path_relative(rel);
    }
    let a = "/"@ + rel;
    assert(char_replaced(a, '\\', '/') =~= a);
    assert(!"./"@.is_prefix_of(a)) by {
        if "./"@.is_prefix_of(a) {
            assert(a[0] == "./"@[0]);
        }
    }
    assert(a.drop_first() =~= rel);
    assert(without_front(rel, slashes()) == rel);
    let b = "./"@ + rel;
    assert(char_replaced(b, '\\', '/') =~= b);
    assert("./"@.is_prefix_of(b));
    assert(b.skip(2) =~= rel);
    assert forall|p: Seq<char>| char_replaced(p, '\\', '/') == rel implies #[trigger] rel_path(p)
        == rel by {
        assert(rel_path(p) == without_front(without_prefixes(rel, "./"@), slashes()));
    }
}

/// A file of a workspace stands below the folder that is its root, or beside the root
/// index; without a root, or with one that says nothing, at its own path.
pub proof fn law_fs_path_spelled(rel: Seq<char>, head: Seq<char>, name: Seq<char>)
    requires
        settled(rel),
        ends_named(head),
        trimmed(head).len() > 0,
        is_name(name),
        ".md"@.is_suffix_of(name),
        trimmed(head + "/"@ + name).len() > 0,
    ensures
        fs_path(rel, None) == rel,
        fs_path(rel, Some("."@)) == rel,
        !".md"@.is_suffix_of(head) && head != "."@ ==> fs_path(rel, Some(head)) == head + "/"@ + rel,
        fs_path(rel, Some(head + "/"@ + name)) == head + "/"@ + rel,
{
    reveal_strlit("/");
    reveal_strlit(".");
    reveal_strlit(".md");
    law_rel_path_relative(rel);
    law_rel_path_spelled(rel);
    law_parent_spelled(head, name);
    let root = head + "/"@ + name;
    assert(".md"@.is_suffix_of(root)) by {
        assert(root.subrange(root.len() - 3, root.len() as int) =~= name.subrange(
            name.len() - 3,
            name.len() as int,
        ));
    }
    assert(!".md"@.is_suffix_of("."@));
}

/// The root index is taken by its name where its path is absolute, else by its path;
/// it is `README.md` where none is known.
pub proof fn law_root_scope_spelled(rel: Seq<char>, head: Seq<char>, name: Seq<char>)
    requires
        settled(rel),
        rel.len() > 0,
        trimmed(rel) == rel,
        !absolute(rel),
        ends_named(head),
        rooted(head),
        is_name(name),
        trimmed(head + "/"@ + name) == head + "/"@ + name,
    ensures
        root_scope(None) == "README.md"@,
        forall|p: Seq<char>| trimmed(p).len() == 0 ==> #[trigger] root_scope(Some(p)) == "README.md"@,
        root_scope(Some(rel)) == rel,
        root_scope(Some(head + "/"@ + name)) == name,
{
    law_rel_path_spelled(rel);
    law_parent_spelled(head, name);
}

/// The root index is looked for at the root where that is a file, or as `README.md` in
/// the root folder; and then as `README.md`.
pub proof fn law_root_candidates_spelled(root: Seq<char>)
    ensures
        root_candidates(None) == seq!["README.md"@],
        root_rel_candidates(None) == seq!["README.md"@],
        ".md"@.is_suffix_of(root) ==> root_candidates(Some(root)) == seq![root, "README.md"@],
        !".md"@.is_suffix_of(root) ==> root_candidates(Some(root)) == seq![
            fs_path("README.md"@, Some(root)),
            "README.md"@,
        ] && root_rel_candidates(Some(root)) == seq!["README.md"@],
        ".md"@.is_suffix_of(root) ==> root_rel_candidates(Some(root)) == if root_scope(Some(root))
            == "README.md"@ {
            seq!["README.md"@]
        } else {
            seq![root_scope(Some(root)), "README.md"@]
        },
{
}

/// A link leads on from the folder of the file that holds it, from the root of the
/// workspace where it starts with a slash.
pub proof fn law_link_resolved(
    entry: Seq<char>,
    folder: Seq<char>,
    name: Seq<char>,
    path: Seq<char>,
)
    requires
        is_name(name),
        ends_named(folder),
        path.len() > 0,
        settled(path),
        settled(folder + "/"@ + path),
    ensures
        resolved_with(entry, folder + "/"@ + name, target_of(path)) == folder + "/"@ + path,
        resolved_with(entry, name, target_of(path)) == path,
        resolved_with(entry, folder + "/"@ + name, target_of("/"@ + path)) == path,
        resolved_with(entry, name, target_of("/"@ + path)) == path,
{
    reveal_strlit("/");
    law_parent_spelled(folder, name);
    law_top_level(name);
    law_rel_path_relative(path);
    law_rel_path_spelled(path);
    law_rel_path_spelled(folder + "/"@ + path);
    assert(("/"@ + path).drop_first() =~= path);
    assert(Seq::<char>::empty() + path =~= path);
}

/// Whether these are names without a backslash.
pub open spec fn are_names(parts: Seq<Seq<char>>) -> bool {
    forall|k: int| 0 <= k < parts.len() ==> is_name(#[trigger] parts[k]) && !parts[k].contains('\\')
}

/// A path of names with a slash between them stays as it is in the workspace. It ends
/// with a name, from the root too.
pub proof fn law_names_settled(parts: Seq<Seq<char>>)
    requires
        parts.len() > 0,
        are_names(parts),
    ensures
        settled(joined(parts, "/"@)),
        ends_named(joined(parts, "/"@)),
        ends_named("/"@ + joined(parts, "/"@)),
        rooted("/"@ + joined(parts, "/"@)),
{
    reveal_strlit("/");
    reveal_strlit(".");
    reveal_strlit("..");
    assert("/"@ =~= seq!['/']);
    assert("."@ =~= seq!['.']);
    assert(".."@ =~= seq!['.', '.']);
    let p = joined(parts, seq!['/']);
    assert forall|k: int| 0 <= k < parts.len() implies (#[trigger] parts[k]).len() > 0
        && !parts[k].contains('/') && parts[k] != seq!['.'] && parts[k] != seq!['.', '.'] by {
        assert(is_name(parts[k]));
    }
    assert(names(parts));
    lemma_joined_without(parts, '\\');
    lemma_names_ends(parts);
    lemma_names_settled(parts);
    let r = "/"@ + p;
    assert(r.last() == p.last());
    assert(p.last() != '/');
    if r.last() == '.' && r[r.len() - 2] == '/' {
        if p.len() == 1 {
            assert(p =~= seq!['.']);
            assert(dotted(p));
        } else {
            assert(p[p.len() - 2] == '/');
            assert(tail_trimmed(p) == tail_trimmed(p.drop_last()));
            lemma_tail_trimmed_shorter(p.drop_last());
        }
    }
    assert(tail_trimmed(r) == r);
}

proof fn lemma_digits_name(s: Seq<char>, from: int)
    requires
        0 <= from < s.len(),
        forall|i: int| from <= i < s.len() ==> '0' <= #[trigger] s[i] <= '9',
        forall|i: int| 0 <= i < from ==> #[trigger] s[i] == '+' || s[i] == '-',
    ensures
        is_name(s),
        !s.contains('\\'),
{
    reveal_strlit(".");
    reveal_strlit("..");
    assert(s[from] != '.');
    assert(s != "."@ && s != ".."@) by {
        if s == "."@ || s == ".."@ {
            assert(s[from] == '.');
        }
    }
}

/// An entry stands at a path of names, below a folder that does.
pub proof fn law_entry_settled(parts: Seq<Seq<char>>, date: CalendarDate)
    requires
        parts.len() > 0,
        are_names(parts),
    ensures
        settled(paths_of(joined(parts, "/"@), date).entry),
{
    reveal_strlit("/");
    reveal_strlit(".");
    reveal_strlit("..");
    reveal_strlit("-");
    reveal_strlit(".md");
    assert("/"@ =~= seq!['/']);
    let year = year_text(date.year as int);
    let month = two_digits(date.month as int);
    let day = two_digits(date.day as int);
    let file = iso_text(date) + ".md"@;
    let n: nat = if date.year < 0 {
        (-date.year) as nat
    } else {
        date.year as nat
    };
    lemma_padded_digits(n, 4);
    lemma_padded_digits(date.month as nat, 2);
    lemma_padded_digits(date.day as nat, 2);
    if 0 <= date.year <= 9999 {
        lemma_digits_name(year, 0);
    } else {
        assert forall|i: int| 1 <= i < year.len() implies '0' <= #[trigger] year[i] <= '9' by {
            assert(year[i] == padded(n, 4)[i - 1]);
        }
        lemma_digits_name(year, 1);
    }
    lemma_digits_name(month, 0);
    lemma_digits_name(day, 0);
    assert(is_name(file) && !file.contains('\\')) by {
        assert forall|i: int| 0 <= i < file.len() implies file[i] != '/' && file[i] != '\\' by {
            let a = year.len() as int;
            let b = a + 1 + month.len();
            let c = b + 1 + day.len();
            if i < a {
                assert(file[i] == year[i]);
                assert(year.contains(year[i]));
            } else if a < i < b {
                assert(file[i] == month[i - a - 1]);
                assert(month.contains(month[i - a - 1]));
            } else if b < i < c {
                assert(file[i] == day[i - b - 1]);
                assert(day.contains(day[i - b - 1]));
            } else if i >= c {
                assert(file[i] == ".md"@[i - c]);
            }
        }
        assert(file.len() > 3);
        assert(file != "."@ && file != ".."@);
    }
    let rest = seq![year, month, file];
    let all = parts + rest;
    lemma_joined_concat(parts, rest, seq!['/']);
    assert(rest.drop_last() =~= seq![year, month]);
    assert(rest.drop_last().drop_last() =~= seq![year]);
    reveal_with_fuel(joined, 4);
    assert(joined(rest, seq!['/']) =~= year + seq!['/'] + month + seq!['/'] + file);
    assert(entry_path(date) =~= joined(rest, seq!['/']));
    assert forall|k: int| 0 <= k < all.len() implies is_name(#[trigger] all[k])
        && !all[k].contains('\\') by {
        if k < parts.len() {
            assert(all[k] == parts[k]);
        } else {
            assert(all[k] == rest[k - parts.len()]);
        }
    }
    law_names_settled(all);
    law_names_settled(parts);
    assert(paths_of(joined(parts, "/"@), date).entry =~= joined(all, "/"@));
}

/// A reference is the way from the folder of the file that holds it, with plain slashes;
/// the path itself where there is no such way.
pub proof fn law_reference_spelled(folder: Seq<char>, name: Seq<char>, to: Seq<char>)
    requires
        is_name(name),
        ends_named(folder),
    ensures
        reference(folder + "/"@ + name, to) == char_replaced(
            match path_difference(to, folder) {
                Some(way) => way,
                None => to,
            },
            '\\',
            '/',
        ),
        reference(name, to) == char_replaced(
            match path_difference(to, Seq::empty()) {
                Some(way) => way,
                None => to,
            },
            '\\',
            '/',
        ),
{
    law_parent_spelled(folder, name);
    law_top_level(name);
}

/// The settings of a workspace are kept under a key that is made from its root alone;
/// without a root as if it were `__default__`.
pub proof fn law_storage_key(root: Seq<char>)
    ensures
        storage_key(None) == storage_key(Some("__default__"@)),
        storage_key(Some(root)) == "daily.config."@ + numeral(
            DefaultHasher::spec_finish(seq![encode_utf8(root), seq![0xffu8]]) as nat,
            16,
        ),
{
}

/// A path that is not below the root is taken as it stands: a relative one, one without a
/// root or with a relative root, and one that another folder of the root holds.
pub proof fn law_other_paths(p: Seq<char>, root: Seq<char>)
    ensures
        workspace_rel(p, None) == rel_path(p),
        !rooted(p) || !rooted(root) ==> workspace_rel(p, Some(root)) == rel_path(p),
{
}

/// A file below another folder than the root keeps the names of all its folders.
pub proof fn law_outside_path(mine: Seq<char>, other: Seq<char>, rest: Seq<char>)
    requires
        is_name(mine),
        is_name(other),
        mine != other,
        settled(other + "/"@ + rest),
    ensures
        workspace_rel("/"@ + other + "/"@ + rest, Some("/"@ + mine)) == other + "/"@ + rest,
{
    reveal_strlit("/");
    reveal_strlit(".");
    let q = other + "/"@ + rest;
    let p = "/"@ + other + "/"@ + rest;
    assert(p =~= "/"@ + q);
    let root = "/"@ + mine;
    law_rel_path_spelled(q);
    assert(root.drop_first() =~= mine);
    assert(p.drop_first() =~= q);
    lemma_name_start(mine, Seq::empty());
    lemma_name_start(other, "/"@ + rest);
    assert(mine + Seq::<char>::empty() =~= mine);
    assert(other + ("/"@ + rest) =~= q);
    assert(ahead(root) == ahead(mine));
    assert(ahead(p) == ahead(q));
    assert(q.take(other.len() as int) =~= other);
    assert(mine.take(mine.len() as int) =~= mine);
}

/// A name stands first in what starts with it.
proof fn lemma_name_start(name: Seq<char>, rest: Seq<char>)
    requires
        is_name(name),
        rest.len() == 0 || rest[0] == '/',
    ensures
        ahead(name + rest) == name + rest,
        first_len(name + rest) == name.len(),
{
    reveal_strlit(".");
    let s = name + rest;
    assert(s[0] == name[0]);
    assert(name.contains(name[0]));
    if name[0] == '.' {
        if name.len() == 1 {
            assert(name =~= "."@);
        } else {
            assert(s[1] == name[1]);
            assert(name.contains(name[1]));
        }
    }
    lemma_first_len_name(name, rest);
}

proof fn lemma_first_len_name(name: Seq<char>, rest: Seq<char>)
    requires
        !name.contains('/'),
        rest.len() == 0 || rest[0] == '/',
    ensures
        first_len(name + rest) == name.len(),
    decreases name.len(),
{
    let s = name + rest;
    if name.len() == 0 {
        assert(s =~= rest);
    } else {
        assert(s[0] == name[0]);
        assert(name.contains(name[0]));
        assert(s.drop_first() =~= name.drop_first() + rest);
        assert forall|i: int| 0 <= i < name.drop_first().len() implies name.drop_first()[i]
            != '/' by {
            assert(name.contains(name[i + 1]));
        }
        lemma_first_len_name(name.drop_first(), rest);
    }
}

/// A path is absolute where it starts with a slash, or with a character of ASCII and a
/// colon.
pub proof fn law_absolute(p: Seq<char>, drive: char)
    requires
        (drive as u32) < 0x80,
    ensures
        absolute("/"@ + p),
        absolute(seq![drive, ':'] + p),
        p.len() == 0 || (p[0] != '/' && (p.len() == 1 || p[1] != ':')) ==> !absolute(p),
{
    reveal_strlit("/");
}

/// A path seen from another: itself where it starts at the root, else behind the other and
/// one slash.
pub proof fn law_path_joined(a: Seq<char>, b: Seq<char>)
    ensures
        rooted(b) ==> path_joined(a, b) == b,
        !rooted(b) && a.len() == 0 ==> path_joined(a, b) == b,
        !rooted(b) && a.len() > 0 && a.last() == '/' ==> path_joined(a, b) == a + b,
        !rooted(b) && a.len() > 0 && a.last() != '/' ==> path_joined(a, b) == a + "/"@ + b,
{
    assert(Seq::<char>::empty() + b =~= b);
    if a.len() == 0 {
        assert(a + b =~= b);
    }
}

/// The daily files of a workspace stand in the folder of its settings, and a file at its
/// path in the file system.
pub proof fn law_state_places(st: StateView, rel: Seq<char>)
    ensures
        st.folder() == effective_folder(st.config.entry_folder),
        st.at(rel) == fs_path(rel, st.root),
{
}

/// A reference in the contents of a file leads where its target does, seen from the file.
pub proof fn law_resolved(entry: Seq<char>, parent: Seq<char>)
    ensures
        resolved(entry, parent) == resolved_with(entry, parent, link_target(entry)),
{
}

} // verus!
