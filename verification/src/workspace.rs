//! Paths in a workspace: relative to it, in the file system, and as links
//! between its files.

use std::collections::hash_map::DefaultHasher;
use std::hash::Hasher;

use vstd::prelude::*;
use vstd::std_specs::hash::DefaultHasherAdditionalSpecFns;
use vstd::utf8::encode_utf8;

use crate::daily_logic::{opt_string_view, opt_view};
use crate::paths::{
    after_slash, ahead, behind, body_start, dotted, file_name, file_name_of, first_len, is_rooted, join,
    lemma_first_len, parent, parent_of, path_joined, rooted, strip_prefix, tail_trimmed,
};
use crate::text::{
    char_replaced, chars_of, concat, ends_with, is_space, joined, lemma_joined_concat,
    lemma_segments_clean, lemma_segments_joined, numeral, replace_char, same_text, segments,
    slashes, spaces, trim, trim_start_matches, trim_start_slashes, trimmed, views, without_back,
    without_front, without_prefixes, write_numeral,
};

verus! {

// ---------------------------------------------------------------------------
// Relative and absolute paths
// ---------------------------------------------------------------------------

/// A path below the workspace: with plain slashes, without `./` or slashes at
/// its start.
pub open spec fn rel_path(p: Seq<char>) -> Seq<char> {
    without_front(without_prefixes(char_replaced(p, '\\', '/'), "./"@), slashes())
}

/// Whether a path is absolute: it starts at the root or with a drive letter.
pub open spec fn absolute(p: Seq<char>) -> bool {
    rooted(p) || (p.len() > 1 && (p[0] as int) < 128 && p[1] == ':')
}

/// The path of a workspace file in the file system. The root of the workspace is
/// a folder, or a root index in that folder.
pub open spec fn fs_path(rel: Seq<char>, root: Option<Seq<char>>) -> Seq<char> {
    let n = rel_path(rel);
    match root {
        Some(r) => if trimmed(r).len() == 0 {
            n
        } else if ".md"@.is_suffix_of(r) && parent_of(r) is Some {
            path_joined(parent_of(r)->0, n)
        } else if absolute(r) || r != "."@ {
            path_joined(r, n)
        } else {
            n
        },
        None => n,
    }
}

/// A path seen from the workspace: what is behind an absolute root that it
/// starts with.
pub open spec fn workspace_rel(p: Seq<char>, root: Option<Seq<char>>) -> Seq<char> {
    if root is Some && absolute(root->0) && rooted(p) && rooted(root->0) && behind(
        p,
        root->0,
    ) is Some {
        rel_path(behind(p, root->0)->0)
    } else {
        rel_path(p)
    }
}

pub fn normalize_rel_path(path: &str) -> (r: String)
    ensures
        r@ == rel_path(path@),
{
    let plain = replace_char(path, '\\', '/');
    trim_start_slashes(trim_start_matches(plain.as_str(), "./").as_str())
}

pub fn is_absolute_path(path: &str) -> (r: bool)
    ensures
        r == absolute(path@),
{
    if is_rooted(path) {
        return true;
    }
    let v = chars_of(path);
    v.len() > 1 && v[0] <= '\u{7F}' && v[1] == ':'
}

pub fn to_fs_path(rel_path: &str, workspace_root: Option<&str>) -> (r: String)
    ensures
        r@ == fs_path(rel_path@, opt_view(workspace_root)),
{
    let rel = normalize_rel_path(rel_path);
    match workspace_root {
        Some(root) => {
            if trim(root).as_str().is_empty() {
                return rel;
            }
            if ends_with(root, ".md") {
                if let Some(folder) = parent(root) {
                    return join(folder.as_str(), rel.as_str());
                }
            }
            if is_absolute_path(root) {
                return join(root, rel.as_str());
            }
            if same_text(root, ".") {
                rel
            } else {
                join(root, rel.as_str())
            }
        },
        None => rel,
    }
}

pub fn to_workspace_rel(path: &str, workspace_root: Option<&str>) -> (r: String)
    ensures
        r@ == workspace_rel(path@, opt_view(workspace_root)),
{
    if let Some(root) = workspace_root {
        if is_absolute_path(root) && is_rooted(path) && is_rooted(root) {
            if let Some(rest) = strip_prefix(path, root) {
                return normalize_rel_path(rest.as_str());
            }
        }
    }
    normalize_rel_path(path)
}

proof fn lemma_front_gone(s: Seq<char>)
    ensures
        !rooted(without_front(s, slashes())),
        forall|x: char|
            !s.contains(x) ==> !(#[trigger] without_front(s, slashes()).contains(x)),
    decreases s.len(),
{
    if s.len() > 0 && slashes()(s[0]) {
        lemma_front_gone(s.drop_first());
        assert forall|x: char| !s.contains(x) implies !(#[trigger] without_front(
            s,
            slashes(),
        ).contains(x)) by {
            assert(!s.drop_first().contains(x)) by {
                assert forall|i: int| 0 <= i < s.len() - 1 implies s.drop_first()[i] != x by {
                    assert(s.contains(s[i + 1]));
                }
            }
        }
    }
}

proof fn lemma_prefixes_gone(s: Seq<char>, part: Seq<char>, x: char)
    requires
        !s.contains(x),
    ensures
        !without_prefixes(s, part).contains(x),
    decreases s.len(),
{
    if part.len() > 0 && part.is_prefix_of(s) {
        let rest = s.skip(part.len() as int);
        assert forall|i: int| 0 <= i < rest.len() implies rest[i] != x by {
            assert(s.contains(s[i + part.len()]));
        }
        lemma_prefixes_gone(rest, part, x);
    }
}

/// A path below the workspace never starts at the root and holds no backslash.
pub proof fn law_rel_path_relative(p: Seq<char>)
    ensures
        !rooted(rel_path(p)),
        !rel_path(p).contains('\\'),
{
    let plain = char_replaced(p, '\\', '/');
    assert forall|i: int| 0 <= i < plain.len() implies plain[i] != '\\' by {}
    lemma_prefixes_gone(plain, "./"@, '\\');
    lemma_front_gone(without_prefixes(plain, "./"@));
}

/// A path whose text stays as it is when it is taken into the workspace.
pub open spec fn settled(p: Seq<char>) -> bool {
    rel_path(p) == p && ahead(p) == p && tail_trimmed(p) == p
}

proof fn lemma_first_len_before(b: Seq<char>, c: Seq<char>)
    requires
        b.len() > 0,
        b.last() == '/' || c.len() == 0 || c[0] == '/',
    ensures
        first_len(b + c) == first_len(b),
    decreases b.len(),
{
    if b[0] == '/' {
        assert((b + c)[0] == '/');
    } else if b.len() == 1 {
        assert((b + c).drop_first() =~= c);
        assert((b + c)[0] == b[0]);
        assert(first_len(c) == 0);
        assert(first_len(b.drop_first()) == 0);
    } else {
        assert((b + c)[0] == b[0]);
        assert((b + c).drop_first() =~= b.drop_first() + c);
        lemma_first_len_before(b.drop_first(), c);
    }
}

/// Behind the components of `b`, the path `b` followed by `c` goes on with `c`.
proof fn lemma_behind_prefix(b: Seq<char>, c: Seq<char>)
    requires
        b.len() == 0 || b.last() == '/' || c.len() == 0 || c[0] == '/',
    ensures
        behind(b + c, b) == Some(tail_trimmed(ahead(c))),
    decreases b.len(),
{
    let p = b + c;
    if b.len() == 0 {
        assert(p =~= c);
    } else if rooted(b) || dotted(b) {
        assert(p.drop_first() =~= b.drop_first() + c);
        assert(p[0] == b[0]);
        if b.len() > 1 {
            assert(p[1] == b[1]);
        }
        lemma_behind_prefix(b.drop_first(), c);
        assert(ahead(p) == ahead(p.drop_first()));
        assert(ahead(b) == ahead(b.drop_first()));
    } else {
        assert(p[0] == b[0]);
        if b.len() > 1 {
            assert(p[1] == b[1]);
        }
        assert(ahead(p) == p);
        assert(ahead(b) == b);
        lemma_first_len_before(b, c);
        lemma_first_len(b);
        let n = first_len(b);
        assert(p.take(n) =~= b.take(n));
        assert(p.skip(n) =~= b.skip(n) + c);
        lemma_behind_prefix(b.skip(n), c);
    }
}

proof fn lemma_back_keeps(s: Seq<char>)
    requires
        s.len() > 0,
        !is_space(s[0]),
    ensures
        without_back(s, spaces()).len() > 0,
    decreases s.len(),
{
    if spaces()(s.last()) {
        assert(s.len() > 1);
        lemma_back_keeps(s.drop_last());
    }
}

/// Whether the root of a workspace is an absolute folder, or says nothing.
pub open spec fn folder_root(root: Option<Seq<char>>) -> bool {
    match root {
        Some(r) => (rooted(r) && !".md"@.is_suffix_of(r)) || trimmed(r).len() == 0 || r == "."@,
        None => true,
    }
}

/// The way into the file system and back gives the same path, in a workspace
/// whose root is an absolute folder or says nothing.
pub proof fn law_fs_path_round_trip(rel: Seq<char>, root: Option<Seq<char>>)
    requires
        settled(rel),
        folder_root(root),
    ensures
        workspace_rel(fs_path(rel, root), root) == rel,
{
    if root is Some && rooted(root->0) {
        reveal_strlit(".");
        assert(without_front(root->0, spaces()) == root->0);
        lemma_back_keeps(root->0);
        lemma_below_root(rel, root->0);
    } else if root is Some {
        let r = root->0;
        reveal_strlit(".");
        if r.len() > 1 && r[1] == ':' && trimmed(r).len() == 0 {
            lemma_blank(r);
        }
        if r == "."@ {
            reveal_strlit(".md");
            assert(!".md"@.is_suffix_of(r));
        }
    }
}

proof fn lemma_blank(s: Seq<char>)
    requires
        trimmed(s).len() == 0,
    ensures
        forall|i: int| 0 <= i < s.len() ==> is_space(#[trigger] s[i]),
    decreases s.len(),
{
    if s.len() > 0 {
        if is_space(s[0]) {
            lemma_blank(s.drop_first());
            assert forall|i: int| 0 <= i < s.len() implies is_space(#[trigger] s[i]) by {
                if i > 0 {
                    assert(s[i] == s.drop_first()[i - 1]);
                }
            }
        } else {
            assert(without_front(s, spaces()) == s);
            lemma_back_keeps(s);
        }
    }
}

proof fn lemma_below_root(rel: Seq<char>, root: Seq<char>)
    requires
        settled(rel),
        rooted(root),
        !".md"@.is_suffix_of(root),
    ensures
        workspace_rel(fs_path(rel, Some(root)), Some(root)) == rel,
{
    reveal_strlit("/");
    assert("/"@ =~= seq!['/']);
    assert(without_front(root, spaces()) == root);
    lemma_back_keeps(root);
    law_rel_path_relative(rel);
    let full = path_joined(root, rel);
    assert(full[0] == '/');
    if root.last() == '/' {
        lemma_behind_prefix(root, rel);
    } else {
        assert(full =~= root + ("/"@ + rel));
        lemma_behind_prefix(root, "/"@ + rel);
        assert(("/"@ + rel).drop_first() =~= rel);
        assert(ahead("/"@ + rel) == ahead(rel));
    }
}

// ---------------------------------------------------------------------------
// Where the settings are kept
// ---------------------------------------------------------------------------

/// What the storage key of a workspace is made from.
pub open spec fn storage_token(root: Option<Seq<char>>) -> Seq<char> {
    match root {
        Some(r) => r,
        None => "__default__"@,
    }
}

/// The key under which the settings of a workspace are kept: a hash of the bytes
/// of its root, which an impossible byte ends.
pub open spec fn storage_key(root: Option<Seq<char>>) -> Seq<char> {
    let written = seq![encode_utf8(storage_token(root)), seq![0xffu8]];
    "daily.config."@ + numeral(DefaultHasher::spec_finish(written) as nat, 16)
}

/// The key under which the settings of a workspace are kept.
pub fn storage_key_for_workspace(workspace_root: Option<&str>) -> (r: String)
    ensures
        r@ == storage_key(opt_view(workspace_root)),
{
    let token = match workspace_root {
        Some(root) => root,
        None => "__default__",
    };
    let mut hasher = DefaultHasher::new();
    hasher.write(token.as_bytes());
    let end: [u8; 1] = [0xff];
    hasher.write(&end);
    assert(end@ =~= seq![0xffu8]);
    assert(hasher@ =~= seq![encode_utf8(token@), seq![0xffu8]]);
    concat("daily.config.", write_numeral(hasher.finish(), 16).as_str())
}

// ---------------------------------------------------------------------------
// Links between files
// ---------------------------------------------------------------------------

/// A relative path of ordinary names with one slash between them.
pub open spec fn ordinary(p: Seq<char>) -> bool {
    &&& p == joined(segments(p), seq!['/'])
    &&& !segments(p).contains(seq!['.'])
    &&& !segments(p).contains(seq!['.', '.'])
}

/// The number of names that two lists have in common at their start.
pub open spec fn common(a: Seq<Seq<char>>, b: Seq<Seq<char>>) -> int
    decreases a.len(),
{
    if a.len() > 0 && b.len() > 0 && a[0] == b[0] {
        1 + common(a.drop_first(), b.drop_first())
    } else {
        0
    }
}

/// The way from the folder `base` to `to`: up to what they have in common, and
/// down from there.
pub open spec fn way(to: Seq<char>, base: Seq<char>) -> Seq<char> {
    let a = segments(to);
    let b = segments(base);
    let k = common(a, b);
    joined(Seq::new((b.len() - k) as nat, |i: int| seq!['.', '.']) + a.skip(k), seq!['/'])
}

/// What `pathdiff::diff_paths` gives.
pub uninterp spec fn path_difference(to: Seq<char>, base: Seq<char>) -> Option<Seq<char>>;

/// `pathdiff::diff_paths`: the path from the folder `base` to `to`, if there is
/// one. Between relative paths of ordinary names it always exists: it leaves the
/// folders of `base` that the two do not share, one `..` for each, and goes down
/// the rest of `to`. Paths are taken to have `/` between their components.
#[verifier::external_body]
pub(crate) fn difference(to: &str, base: &str) -> (r: Option<String>)
    ensures
        opt_string_view(r) == path_difference(to@, base@),
        ordinary(to@) && ordinary(base@) ==> opt_string_view(r) == Some(way(to@, base@)),
{
    pathdiff::diff_paths(to, base).map(|p| p.to_string_lossy().into_owned())
}

/// The folder of a file.
pub open spec fn folder_of(p: Seq<char>) -> Seq<char> {
    match parent_of(p) {
        Some(f) => f,
        None => Seq::empty(),
    }
}

/// A reference to `to`: the way there, or `to` itself where there is none.
pub open spec fn reference_with(to: Seq<char>, way: Option<Seq<char>>) -> Seq<char> {
    match way {
        Some(w) => char_replaced(w, '\\', '/'),
        None => char_replaced(to, '\\', '/'),
    }
}

/// The reference from one file to another.
pub open spec fn reference(from: Seq<char>, to: Seq<char>) -> Seq<char> {
    reference_with(to, path_difference(to, folder_of(from)))
}

fn folder(path: &str) -> (r: String)
    ensures
        r@ == folder_of(path@),
{
    match parent(path) {
        Some(f) => f,
        None => {
            let none = String::new();
            assert(none@ =~= Seq::empty());
            none
        },
    }
}

pub fn reference_text(to_file_rel: &str, way: Option<&str>) -> (r: String)
    ensures
        r@ == reference_with(to_file_rel@, opt_view(way)),
{
    match way {
        Some(w) => replace_char(w, '\\', '/'),
        None => replace_char(to_file_rel, '\\', '/'),
    }
}

/// The reference that one file of the workspace holds to another. Between
/// ordinary paths it is the way from the folder of the first to the second.
pub fn relative_ref(from_file_rel: &str, to_file_rel: &str) -> (r: String)
    ensures
        r@ == reference(from_file_rel@, to_file_rel@),
        ordinary(to_file_rel@) && ordinary(folder_of(from_file_rel@)) ==> r@ == char_replaced(
            way(to_file_rel@, folder_of(from_file_rel@)),
            '\\',
            '/',
        ),
{
    let from_dir = folder(from_file_rel);
    match difference(to_file_rel, from_dir.as_str()) {
        Some(w) => reference_text(to_file_rel, Some(w.as_str())),
        None => reference_text(to_file_rel, None),
    }
}

/// Where a link leads: a path, and whether it starts at the root of the
/// workspace.
#[derive(Debug)]
pub struct LinkTarget {
    pub path: String,
    pub from_root: bool,
}

/// What the target of a link holds.
pub struct TargetView {
    pub path: Seq<char>,
    pub from_root: bool,
}

impl View for LinkTarget {
    type V = TargetView;

    open spec fn view(&self) -> TargetView {
        TargetView { path: self.path@, from_root: self.from_root }
    }
}

/// The target of a link, as `diaryx_core::link_parser::parse_link` gives it.
pub uninterp spec fn link_target(text: Seq<char>) -> TargetView;

/// The target that a path names: a slash at its start is the root.
pub open spec fn target_of(path: Seq<char>) -> TargetView {
    TargetView {
        path: if rooted(path) {
            path.drop_first()
        } else {
            path
        },
        from_root: rooted(path),
    }
}

/// A Markdown link.
pub open spec fn link_text(title: Seq<char>, path: Seq<char>) -> Seq<char> {
    "["@ + title + "]("@ + path + ")"@
}

/// A Markdown link with its path in angle brackets.
pub open spec fn angle_link_text(title: Seq<char>, path: Seq<char>) -> Seq<char> {
    "["@ + title + "](<"@ + path + ">)"@
}

/// Whether nothing in the title or the path of a link in angle brackets ends it
/// early.
pub open spec fn simple_angle_link(title: Seq<char>, path: Seq<char>) -> bool {
    !title.contains(']') && !path.contains('>')
}

/// How many round brackets are open after the first `n` characters.
pub open spec fn open_brackets(s: Seq<char>, n: int) -> int
    decreases n,
{
    if n <= 0 {
        0
    } else if s[n - 1] == '(' {
        open_brackets(s, n - 1) + 1
    } else if s[n - 1] == ')' {
        open_brackets(s, n - 1) - 1
    } else {
        open_brackets(s, n - 1)
    }
}

/// Whether every round bracket that closes was open, and none stays open.
pub open spec fn balanced(s: Seq<char>) -> bool {
    &&& open_brackets(s, s.len() as int) == 0
    &&& forall|n: int| 0 <= n <= s.len() ==> #[trigger] open_brackets(s, n) >= 0
}

/// Whether nothing in the title or the path of a link ends it early.
pub open spec fn simple_link(title: Seq<char>, path: Seq<char>) -> bool {
    !title.contains(']') && balanced(path) && !(path.len() > 0 && path[0] == '<')
}

/// `diaryx_core::link_parser::parse_link`: where a link leads. Spaces around it
/// count for nothing. A text that does not start with a square bracket is the
/// path itself, and a Markdown link holds it between round brackets, where others
/// may stand in it in pairs, or between angle brackets within them.
#[verifier::external_body]
pub(crate) fn parse_target(text: &str) -> (r: LinkTarget)
    ensures
        r@ == link_target(text@),
        trimmed(text@).len() == 0 || trimmed(text@)[0] != '[' ==> r@ == target_of(trimmed(text@)),
        forall|title: Seq<char>, path: Seq<char>|
            #![trigger link_text(title, path)]
            trimmed(text@) == link_text(title, path) && simple_link(title, path) ==> r@
                == target_of(path),
        forall|title: Seq<char>, path: Seq<char>|
            #![trigger angle_link_text(title, path)]
            trimmed(text@) == angle_link_text(title, path) && simple_angle_link(title, path) ==> r@
                == target_of(path),
{
    let link = diaryx_core::link_parser::parse_link(text);
    let from_root = link.path_type == diaryx_core::link_parser::PathType::WorkspaceRoot;
    LinkTarget { path: link.path, from_root }
}

/// The workspace path of a link with the given target in the file `parent`. A
/// link from the root of the workspace is taken from there, any other from the
/// folder of the file.
pub open spec fn resolved_with(
    entry: Seq<char>,
    parent: Seq<char>,
    target: TargetView,
) -> Seq<char> {
    let raw = if target.path.len() == 0 {
        trimmed(entry)
    } else {
        target.path
    };
    if target.from_root || rooted(raw) {
        rel_path(raw)
    } else {
        rel_path(path_joined(folder_of(parent), raw))
    }
}

pub fn resolve_target(entry: &str, parent_rel: &str, target: &LinkTarget) -> (r: String)
    ensures
        r@ == resolved_with(entry@, parent_rel@, target@),
{
    let raw: String = if target.path.as_str().is_empty() {
        trim(entry)
    } else {
        target.path.clone()
    };
    if target.from_root || is_rooted(raw.as_str()) {
        normalize_rel_path(raw.as_str())
    } else {
        let from = folder(parent_rel);
        normalize_rel_path(join(from.as_str(), raw.as_str()).as_str())
    }
}

/// The workspace path of an entry of `contents` in the file `parent_rel`: a plain
/// path or a Markdown link. A path that starts with a slash is taken from the
/// root of the workspace, any other from the folder of the file.
pub fn resolve_link_path(entry: &str, parent_rel: &str) -> (r: String)
    ensures
        r@ == resolved_with(entry@, parent_rel@, link_target(entry@)),
        trimmed(entry@).len() == 0 || trimmed(entry@)[0] != '[' ==> r@ == resolved_with(
            entry@,
            parent_rel@,
            target_of(trimmed(entry@)),
        ),
        forall|title: Seq<char>, path: Seq<char>|
            #![trigger link_text(title, path)]
            trimmed(entry@) == link_text(title, path) && simple_link(title, path) ==> r@
                == resolved_with(entry@, parent_rel@, target_of(path)),
        forall|title: Seq<char>, path: Seq<char>|
            #![trigger angle_link_text(title, path)]
            trimmed(entry@) == angle_link_text(title, path) && simple_angle_link(title, path)
                ==> r@ == resolved_with(entry@, parent_rel@, target_of(path)),
{
    let target = parse_target(entry);
    resolve_target(entry, parent_rel, &target)
}

/// A link from the root of the workspace leads to the same file from everywhere.
pub proof fn law_root_link(entry: Seq<char>, parent: Seq<char>, path: Seq<char>)
    requires
        path.len() > 1,
        rooted(path),
    ensures
        resolved_with(entry, parent, target_of(path)) == rel_path(path.drop_first()),
{
}

/// Names that can stand between slashes.
pub open spec fn names(parts: Seq<Seq<char>>) -> bool {
    forall|k: int|
        0 <= k < parts.len() ==> (#[trigger] parts[k]).len() > 0 && !parts[k].contains('/')
            && parts[k] != seq!['.'] && parts[k] != seq!['.', '.']
}

proof fn lemma_ordinary_names(p: Seq<char>)
    requires
        ordinary(p),
    ensures
        names(segments(p)),
{
    let parts = segments(p);
    lemma_segments_clean(p);
    assert forall|k: int| 0 <= k < parts.len() implies (#[trigger] parts[k]).len() > 0
        && !parts[k].contains('/') && parts[k] != seq!['.'] && parts[k] != seq!['.', '.'] by {
        assert(parts.contains(parts[k]));
    }
}

/// What a path of names looks like at its ends.
pub(crate) proof fn lemma_names_ends(parts: Seq<Seq<char>>)
    requires
        parts.len() > 0,
        names(parts),
    ensures
        joined(parts, seq!['/']).len() > 0,
        !rooted(joined(parts, seq!['/'])),
        !dotted(joined(parts, seq!['/'])),
        tail_trimmed(joined(parts, seq!['/'])) == joined(parts, seq!['/']),
        after_slash(joined(parts, seq!['/'])) == joined(parts, seq!['/']).len()
            - parts.last().len(),
    decreases parts.len(),
{
    let p = joined(parts, seq!['/']);
    let last = parts.last();
    assert(last == parts[parts.len() - 1]);
    assert(last.contains(last.last()) && last.contains(last[0]));
    if parts.len() == 1 {
        assert(p =~= last);
        if last.len() > 1 {
            assert(last.contains(last[1]) && last.contains(last[last.len() - 2]));
        } else if last[0] == '.' {
            assert(last =~= seq!['.']);
        }
        lemma_after_slash_none(last);
    } else {
        let before = parts.drop_last();
        lemma_names_ends(before);
        let head = joined(before, seq!['/']);
        assert(p == head + seq!['/'] + last);
        assert(p[0] == head[0]);
        assert(p.last() == last.last());
        if head.len() > 1 {
            assert(p[1] == head[1]);
        } else {
            assert(head[0] != '.') by {
                if head[0] == '.' {
                    assert(dotted(head));
                }
            }
        }
        if p.last() == '.' {
            if last.len() == 1 {
                assert(last =~= seq!['.']);
            } else {
                assert(p[p.len() - 2] == last[last.len() - 2]);
                assert(last.contains(last[last.len() - 2]));
            }
        }
        lemma_after_slash_join(head, last);
    }
}

pub(crate) proof fn lemma_after_slash_none(s: Seq<char>)
    requires
        s.len() > 0,
        !s.contains('/'),
    ensures
        after_slash(s) == 0,
    decreases s.len(),
{
    assert(s.contains(s.last()));
    let before = s.drop_last();
    if before.len() > 0 {
        assert forall|i: int| 0 <= i < before.len() implies before[i] != '/' by {
            assert(s.contains(s[i]));
        }
        lemma_after_slash_none(before);
    }
}

pub(crate) proof fn lemma_after_slash_join(head: Seq<char>, last: Seq<char>)
    requires
        !last.contains('/'),
    ensures
        after_slash(head + seq!['/'] + last) == head.len() + 1,
    decreases last.len(),
{
    let p = head + seq!['/'] + last;
    if last.len() == 0 {
        assert(p.last() == '/');
    } else {
        let before = last.drop_last();
        assert(last.contains(last.last()));
        assert forall|i: int| 0 <= i < before.len() implies before[i] != '/' by {
            assert(last.contains(last[i]));
        }
        assert(p.drop_last() =~= head + seq!['/'] + before);
        lemma_after_slash_join(head, before);
    }
}

/// The folder of a path of names is the path of all names but the last.
proof fn lemma_folder_of_names(parts: Seq<Seq<char>>)
    requires
        parts.len() > 0,
        names(parts),
    ensures
        folder_of(joined(parts, seq!['/'])) == joined(parts.drop_last(), seq!['/']),
{
    let p = joined(parts, seq!['/']);
    lemma_names_ends(parts);
    let cut = after_slash(p);
    if parts.len() == 1 {
        assert(p.take(cut) =~= Seq::empty());
        assert(parts.drop_last() =~= Seq::empty());
    } else {
        let before = parts.drop_last();
        let head = joined(before, seq!['/']);
        lemma_names_ends(before);
        assert(p.take(cut) =~= head + seq!['/']);
        let slashed = head + seq!['/'];
        assert(slashed.drop_last() =~= head);
        assert(slashed.last() == '/');
        assert(slashed.len() > body_start(slashed));
        assert(tail_trimmed(slashed) == tail_trimmed(head));
    }
}

proof fn lemma_common_prefix(a: Seq<Seq<char>>, b: Seq<Seq<char>>)
    requires
        b.is_prefix_of(a),
    ensures
        common(a, b) == b.len(),
    decreases a.len(),
{
    if a.len() > 0 && b.len() > 0 {
        assert(b[0] == a[0]);
        assert(b.drop_first() =~= a.drop_first().subrange(0, b.len() - 1));
        lemma_common_prefix(a.drop_first(), b.drop_first());
    }
}

pub(crate) proof fn lemma_names_settled(parts: Seq<Seq<char>>)
    requires
        parts.len() > 0,
        names(parts),
        !joined(parts, seq!['/']).contains('\\'),
    ensures
        rel_path(joined(parts, seq!['/'])) == joined(parts, seq!['/']),
{
    reveal_strlit("./");
    let p = joined(parts, seq!['/']);
    lemma_names_ends(parts);
    assert forall|i: int| 0 <= i < p.len() implies p[i] != '\\' by {
        assert(p.contains(p[i]));
    }
    assert(char_replaced(p, '\\', '/') =~= p);
    assert(!"./"@.is_prefix_of(p)) by {
        if "./"@.is_prefix_of(p) {
            assert(p[0] == "./"@[0] && p[1] == "./"@[1]);
        }
    }
}

/// The way from a file to another one in its folder or below.
pub open spec fn way_down(from: Seq<char>, to: Seq<char>) -> Seq<char> {
    way(to, folder_of(from))
}

/// A reference to a file in the same folder or below it leads back to that file,
/// where it reads as a plain path.
pub proof fn law_reference_resolves(from: Seq<char>, to: Seq<char>)
    requires
        ordinary(from),
        ordinary(to),
        segments(from).len() > 0,
        segments(from).drop_last().len() < segments(to).len(),
        segments(from).drop_last().is_prefix_of(segments(to)),
        !to.contains('\\'),
        trimmed(way_down(from, to)) == way_down(from, to),
    ensures
        resolved_with(
            char_replaced(way_down(from, to), '\\', '/'),
            from,
            target_of(trimmed(char_replaced(way_down(from, to), '\\', '/'))),
        ) == to,
{
    let w = way_down(from, to);
    let a = segments(to);
    let b = segments(from).drop_last();
    let dir = joined(b, seq!['/']);
    reveal_strlit("/");
    assert("/"@ =~= seq!['/']);
    lemma_ordinary_names(from);
    lemma_ordinary_names(to);
    lemma_folder_of_names(segments(from));
    assert(names(b));
    lemma_segments_joined(b);
    lemma_common_prefix(a, b);
    let rest = a.skip(b.len() as int);
    assert(Seq::new(0, |i: int| seq!['.', '.']) + rest =~= rest);
    assert(w == joined(rest, seq!['/']));
    assert(names(rest));
    lemma_names_ends(rest);
    assert(b + rest =~= a);
    if b.len() > 0 {
        lemma_joined_concat(b, rest, seq!['/']);
        lemma_names_ends(b);
        assert(dir.last() != '/') by {
            if dir.last() == '/' {
                assert(tail_trimmed(dir) == tail_trimmed(dir.drop_last()));
                lemma_tail_trimmed_shorter(dir.drop_last());
            }
        }
        assert(path_joined(dir, w) =~= to);
    } else {
        assert(rest =~= a);
        assert(dir =~= Seq::empty());
        assert(path_joined(dir, w) =~= to);
    }
    lemma_names_settled(a);
    assert forall|i: int| 0 <= i < w.len() implies w[i] != '\\' by {
        let j = i + to.len() - w.len();
        assert(to[j] == w[i]);
        assert(to.contains(to[j]));
    }
    assert(char_replaced(w, '\\', '/') =~= w);
}

pub(crate) proof fn lemma_tail_trimmed_shorter(p: Seq<char>)
    ensures
        tail_trimmed(p).len() <= p.len(),
    decreases p.len(),
{
    if p.len() > body_start(p) && (p.last() == '/' || (p.len() >= 2 && p.last() == '.' && p[p.len()
        - 2] == '/')) {
        lemma_tail_trimmed_shorter(p.drop_last());
    }
}

// ---------------------------------------------------------------------------
// The root index
// ---------------------------------------------------------------------------

/// The root index as a path below the workspace; `README.md` where none is
/// known.
pub open spec fn root_scope(path: Option<Seq<char>>) -> Seq<char> {
    match path {
        Some(p) => {
            let t = trimmed(p);
            let n = if absolute(t) {
                match file_name_of(t) {
                    Some(name) => name,
                    None => "README.md"@,
                }
            } else {
                rel_path(t)
            };
            if t.len() == 0 || n.len() == 0 {
                "README.md"@
            } else {
                n
            }
        },
        None => "README.md"@,
    }
}

pub fn root_index_scope(path: Option<&str>) -> (r: String)
    ensures
        r@ == root_scope(opt_view(path)),
{
    let trimmed_path = match path {
        Some(p) => trim(p),
        None => return "README.md".to_owned(),
    };
    if trimmed_path.as_str().is_empty() {
        return "README.md".to_owned();
    }
    let normalized = if is_absolute_path(trimmed_path.as_str()) {
        match file_name(trimmed_path.as_str()) {
            Some(name) => name,
            None => "README.md".to_owned(),
        }
    } else {
        normalize_rel_path(trimmed_path.as_str())
    };
    if normalized.as_str().is_empty() {
        "README.md".to_owned()
    } else {
        normalized
    }
}

/// The root index is never the empty path.
pub proof fn law_root_scope_not_empty(path: Option<Seq<char>>)
    ensures
        root_scope(path).len() > 0,
{
    reveal_strlit("README.md");
}

/// The files that may hold the settings of earlier versions.
pub open spec fn root_candidates(root: Option<Seq<char>>) -> Seq<Seq<char>> {
    match root {
        Some(r) => if ".md"@.is_suffix_of(r) {
            seq![r, "README.md"@]
        } else {
            seq![fs_path("README.md"@, root), "README.md"@]
        },
        None => seq!["README.md"@],
    }
}

pub fn find_root_index_candidates(workspace_root: Option<&str>) -> (out: Vec<String>)
    ensures
        views(out@) == root_candidates(opt_view(workspace_root)),
{
    let mut out: Vec<String> = Vec::new();
    if let Some(root) = workspace_root {
        if ends_with(root, ".md") {
            out.push(root.to_owned());
        } else {
            out.push(to_fs_path("README.md", Some(root)));
        }
    }
    out.push("README.md".to_owned());
    assert(views(out@) =~= root_candidates(opt_view(workspace_root)));
    out
}

/// The workspace paths at which the root index may stand.
pub open spec fn root_rel_candidates(root: Option<Seq<char>>) -> Seq<Seq<char>> {
    match root {
        Some(r) => if ".md"@.is_suffix_of(r) && root_scope(root) != "README.md"@ {
            seq![root_scope(root), "README.md"@]
        } else {
            seq!["README.md"@]
        },
        None => seq!["README.md"@],
    }
}

pub fn root_index_rel_candidates(workspace_root: Option<&str>) -> (out: Vec<String>)
    ensures
        views(out@) == root_rel_candidates(opt_view(workspace_root)),
{
    let mut out: Vec<String> = Vec::new();
    if let Some(root) = workspace_root {
        if ends_with(root, ".md") {
            let scope = root_index_scope(Some(root));
            if !same_text(scope.as_str(), "README.md") {
                out.push(scope);
            }
        }
    }
    out.push("README.md".to_owned());
    assert(views(out@) =~= root_rel_candidates(opt_view(workspace_root)));
    out
}

// ---------------------------------------------------------------------------
// Scopes
// ---------------------------------------------------------------------------

/// The scopes without empty ones and without repetitions, each where it stands
/// first.
pub open spec fn distinct_scopes(scopes: Seq<Seq<char>>) -> Seq<Seq<char>>
    decreases scopes.len(),
{
    if scopes.len() == 0 {
        Seq::empty()
    } else {
        let before = distinct_scopes(scopes.drop_last());
        if scopes.last().len() > 0 && !before.contains(scopes.last()) {
            before.push(scopes.last())
        } else {
            before
        }
    }
}

/// Whether a text is among the texts of a list.
pub fn among(list: &Vec<String>, text: &str) -> (r: bool)
    ensures
        r == views(list@).contains(text@),
{
    let mut i: usize = 0;
    while i < list.len()
        invariant
            i <= list@.len(),
            forall|k: int| 0 <= k < i ==> (#[trigger] list@[k])@ != text@,
        decreases list@.len() - i,
    {
        if same_text(list[i].as_str(), text) {
            assert(views(list@)[i as int] == text@);
            return true;
        }
        i = i + 1;
    }
    assert forall|k: int| 0 <= k < views(list@).len() implies views(list@)[k] != text@ by {
        assert(list@[k]@ != text@);
    }
    false
}

pub fn unique_scopes(scopes: Vec<String>) -> (out: Vec<String>)
    ensures
        views(out@) == distinct_scopes(views(scopes@)),
{
    let mut out: Vec<String> = Vec::new();
    let mut i: usize = 0;
    assert(views(scopes@).take(0) =~= Seq::empty());
    assert(views(out@) =~= Seq::empty());
    while i < scopes.len()
        invariant
            i <= scopes@.len(),
            views(out@) == distinct_scopes(views(scopes@).take(i as int)),
        decreases scopes@.len() - i,
    {
        let ghost part = views(scopes@).take(i + 1);
        assert(part.drop_last() =~= views(scopes@).take(i as int));
        let scope = scopes[i].clone();
        let known = among(&out, scope.as_str());
        if !scope.as_str().is_empty() && !known {
            let ghost before = views(out@);
            out.push(scope);
            assert(views(out@) =~= before.push(part.last()));
        }
        i = i + 1;
    }
    assert(views(scopes@).take(i as int) =~= views(scopes@));
    out
}

/// Scopes are never empty and never repeated, and no scope is lost.
pub proof fn law_scopes_distinct(scopes: Seq<Seq<char>>)
    ensures
        distinct_scopes(scopes).no_duplicates(),
        forall|s: Seq<char>|
            #![trigger distinct_scopes(scopes).contains(s)]
            distinct_scopes(scopes).contains(s) <==> s.len() > 0 && scopes.contains(s),
    decreases scopes.len(),
{
    if scopes.len() > 0 {
        let before = distinct_scopes(scopes.drop_last());
        let last = scopes.last();
        law_scopes_distinct(scopes.drop_last());
        let all = distinct_scopes(scopes);
        assert forall|s: Seq<char>|
            #![trigger all.contains(s)]
            all.contains(s) <==> s.len() > 0 && scopes.contains(s) by {
            let i = scopes.index_of(s);
            if scopes.contains(s) && s != last && s.len() > 0 {
                assert(scopes.drop_last()[i] == s);
                assert(before.contains(s));
            }
            if scopes.drop_last().contains(s) {
                let j = scopes.drop_last().index_of(s);
                assert(scopes[j] == s);
            }
            if before.contains(s) {
                let j = before.index_of(s);
                assert(all[j] == s);
            }
            assert(scopes[scopes.len() - 1] == last);
            if last.len() > 0 && !before.contains(last) {
                assert(all[all.len() - 1] == last);
            }
            if all.contains(s) {
                let j = all.index_of(s);
                if j < before.len() {
                    assert(before[j] == s);
                }
            }
        }
    }
}

} // verus!
