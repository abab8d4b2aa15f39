//! Paths as texts with `/` between their components.
//!
//! A path may start with a slash, its root. Empty components and `.` count for
//! nothing, but a `.` at the start of a path without a root is kept.

use vstd::prelude::*;

use crate::text::{chars_of, concat, same_text, text_between};

verus! {

/// Whether a path starts at the root.
pub open spec fn rooted(p: Seq<char>) -> bool {
    p.len() > 0 && p[0] == '/'
}

/// Whether a path starts with the component `.`.
pub open spec fn dotted(p: Seq<char>) -> bool {
    p.len() > 0 && p[0] == '.' && (p.len() == 1 || p[1] == '/')
}

/// The length of the root or of the leading `.`.
pub open spec fn body_start(p: Seq<char>) -> int {
    if rooted(p) || dotted(p) {
        1
    } else {
        0
    }
}

/// A path without the slashes and the components `.` at its end.
pub open spec fn tail_trimmed(p: Seq<char>) -> Seq<char>
    decreases p.len(),
{
    if p.len() > body_start(p) && (p.last() == '/' || (p.len() >= 2 && p.last() == '.' && p[p.len()
        - 2] == '/')) {
        tail_trimmed(p.drop_last())
    } else {
        p
    }
}

/// The place behind the last slash.
pub open spec fn after_slash(p: Seq<char>) -> int
    decreases p.len(),
{
    if p.len() == 0 || p.last() == '/' {
        p.len() as int
    } else {
        after_slash(p.drop_last())
    }
}

/// A path without its last component; nothing for the root and the empty path.
pub open spec fn parent_of(p: Seq<char>) -> Option<Seq<char>> {
    let t = tail_trimmed(p);
    if t.len() > body_start(t) {
        Some(tail_trimmed(t.take(after_slash(t))))
    } else if dotted(t) {
        Some(Seq::empty())
    } else {
        None
    }
}

/// The last component, where it is a name.
pub open spec fn file_name_of(p: Seq<char>) -> Option<Seq<char>> {
    let t = tail_trimmed(p);
    let name = t.skip(after_slash(t));
    if t.len() > body_start(t) && name != ".."@ {
        Some(name)
    } else {
        None
    }
}

/// `b` seen from `a`.
pub open spec fn path_joined(a: Seq<char>, b: Seq<char>) -> Seq<char> {
    if rooted(b) {
        b
    } else if a.len() == 0 || a.last() == '/' {
        a + b
    } else {
        a + "/"@ + b
    }
}

/// A path without the slashes and the components `.` at its start.
pub open spec fn ahead(p: Seq<char>) -> Seq<char>
    decreases p.len(),
{
    if rooted(p) || dotted(p) {
        ahead(p.drop_first())
    } else {
        p
    }
}

/// The number of characters before the first slash.
pub open spec fn first_len(p: Seq<char>) -> int
    decreases p.len(),
{
    if p.len() == 0 || p[0] == '/' {
        0
    } else {
        1 + first_len(p.drop_first())
    }
}

/// A component that does not start with a slash has a length.
pub proof fn lemma_first_len(p: Seq<char>)
    ensures
        0 <= first_len(p) <= p.len(),
        p.len() > 0 && p[0] != '/' ==> first_len(p) > 0,
    decreases p.len(),
{
    if p.len() > 0 && p[0] != '/' {
        lemma_first_len(p.drop_first());
    }
}

/// What is ahead has no root.
pub proof fn lemma_ahead(p: Seq<char>)
    ensures
        ahead(p).len() <= p.len(),
        !rooted(ahead(p)),
    decreases p.len(),
{
    if rooted(p) || dotted(p) {
        lemma_ahead(p.drop_first());
    }
}

/// What is left of a path behind the components of `base`; nothing where it
/// does not start with them.
pub open spec fn behind(p: Seq<char>, base: Seq<char>) -> Option<Seq<char>>
    decreases base.len(),
{
    let s = ahead(p);
    let b = ahead(base);
    let n = first_len(s);
    let m = first_len(b);
    proof {
        lemma_ahead(base);
        lemma_first_len(b);
    }
    if b.len() == 0 {
        Some(tail_trimmed(s))
    } else if s.len() == 0 || s.take(n) != b.take(m) {
        None
    } else {
        behind(s.skip(n), b.skip(m))
    }
}

/// Whether a path starts at the root.
pub fn is_rooted(p: &str) -> (r: bool)
    ensures
        r == rooted(p@),
{
    let v = chars_of(p);
    v.len() > 0 && v[0] == '/'
}

fn starts_dotted(v: &Vec<char>, from: usize) -> (r: bool)
    requires
        from <= v@.len(),
    ensures
        r == dotted(v@.skip(from as int)),
{
    from < v.len() && v[from] == '.' && (from + 1 == v.len() || v[from + 1] == '/')
}

/// The end of what [`tail_trimmed`] leaves of the first `to` characters.
fn trimmed_end(v: &Vec<char>, to: usize) -> (r: usize)
    requires
        to <= v@.len(),
    ensures
        r <= to,
        v@.take(r as int) == tail_trimmed(v@.take(to as int)),
{
    let mut n: usize = to;
    assert(v@.take(n as int) == v@.take(to as int));
    loop
        invariant
            n <= to <= v@.len(),
            tail_trimmed(v@.take(n as int)) == tail_trimmed(v@.take(to as int)),
        ensures
            n <= to,
            v@.take(n as int) == tail_trimmed(v@.take(to as int)),
        decreases n,
    {
        let ghost p = v@.take(n as int);
        let start: usize = if n > 0 && (v[0] == '/' || (v[0] == '.' && (n == 1 || v[1] == '/'))) {
            1
        } else {
            0
        };
        assert(start == body_start(p));
        if n > start && (v[n - 1] == '/' || (n >= 2 && v[n - 1] == '.' && v[n - 2] == '/')) {
            assert(p.drop_last() =~= v@.take(n - 1));
            n = n - 1;
        } else {
            break;
        }
    }
    n
}

/// The place behind the last slash of the first `to` characters.
fn name_start(v: &Vec<char>, to: usize) -> (r: usize)
    requires
        to <= v@.len(),
    ensures
        r <= to,
        r == after_slash(v@.take(to as int)),
{
    let mut n: usize = to;
    while n > 0 && v[n - 1] != '/'
        invariant
            n <= to <= v@.len(),
            after_slash(v@.take(n as int)) == after_slash(v@.take(to as int)),
        decreases n,
    {
        assert(v@.take(n as int).drop_last() =~= v@.take(n - 1));
        n = n - 1;
    }
    n
}

/// A path without its last component.
pub fn parent(p: &str) -> (r: Option<String>)
    ensures
        match parent_of(p@) {
            Some(t) => r matches Some(s) && s@ == t,
            None => r is None,
        },
{
    let v = chars_of(p);
    let whole: usize = v.len();
    assert(v@.take(whole as int) =~= p@);
    let end = trimmed_end(&v, whole);
    let ghost t = v@.take(end as int);
    let dot = end > 0 && v[0] == '.' && (end == 1 || v[1] == '/');
    let start: usize = if dot || (end > 0 && v[0] == '/') {
        1
    } else {
        0
    };
    assert(start == body_start(t));
    if end > start {
        let cut = name_start(&v, end);
        assert(v@.take(cut as int) =~= t.take(cut as int));
        let stop = trimmed_end(&v, cut);
        assert(v@.subrange(0, stop as int) =~= v@.take(stop as int));
        Some(text_between(&v, 0, stop))
    } else if dot {
        let s = String::new();
        assert(s@ =~= Seq::empty());
        Some(s)
    } else {
        None
    }
}

/// The last component, where it is a name.
pub fn file_name(p: &str) -> (r: Option<String>)
    ensures
        match file_name_of(p@) {
            Some(t) => r matches Some(s) && s@ == t,
            None => r is None,
        },
{
    let v = chars_of(p);
    let whole: usize = v.len();
    assert(v@.take(whole as int) =~= p@);
    let end = trimmed_end(&v, whole);
    let ghost t = v@.take(end as int);
    let start: usize = if end > 0 && (v[0] == '/' || (v[0] == '.' && (end == 1 || v[1] == '/'))) {
        1
    } else {
        0
    };
    assert(start == body_start(t));
    let cut = name_start(&v, end);
    let name = text_between(&v, cut, end);
    assert(name@ =~= t.skip(cut as int));
    if end > start && !same_text(name.as_str(), "..") {
        Some(name)
    } else {
        None
    }
}

/// `b` seen from `a`.
pub fn join(a: &str, b: &str) -> (r: String)
    ensures
        r@ == path_joined(a@, b@),
{
    let v = chars_of(a);
    let n: usize = v.len();
    if is_rooted(b) {
        b.to_owned()
    } else if n == 0 || v[n - 1] == '/' {
        concat(a, b)
    } else {
        concat(concat(a, "/").as_str(), b)
    }
}

fn skip_ahead(v: &Vec<char>, from: usize) -> (i: usize)
    requires
        from <= v@.len(),
    ensures
        from <= i <= v@.len(),
        v@.skip(i as int) == ahead(v@.skip(from as int)),
{
    let mut i: usize = from;
    while i < v.len() && (v[i] == '/' || starts_dotted(v, i))
        invariant
            from <= i <= v@.len(),
            ahead(v@.skip(i as int)) == ahead(v@.skip(from as int)),
        decreases v@.len() - i,
    {
        assert(v@.skip(i as int).drop_first() =~= v@.skip(i + 1));
        i = i + 1;
    }
    i
}

fn component_end(v: &Vec<char>, from: usize) -> (i: usize)
    requires
        from <= v@.len(),
    ensures
        from <= i <= v@.len(),
        i - from == first_len(v@.skip(from as int)),
{
    let mut i: usize = from;
    while i < v.len() && v[i] != '/'
        invariant
            from <= i <= v@.len(),
            i - from + first_len(v@.skip(i as int)) == first_len(v@.skip(from as int)),
        decreases v@.len() - i,
    {
        assert(v@.skip(i as int).drop_first() =~= v@.skip(i + 1));
        i = i + 1;
    }
    i
}

/// What is left of a path behind the components of `base`, where it starts with
/// them.
pub fn strip_prefix(p: &str, base: &str) -> (r: Option<String>)
    requires
        rooted(p@),
        rooted(base@),
    ensures
        match behind(p@, base@) {
            Some(t) => r matches Some(s) && s@ == t,
            None => r is None,
        },
{
    let v = chars_of(p);
    let w = chars_of(base);
    let mut i: usize = 0;
    let mut j: usize = 0;
    assert(v@.skip(0) =~= v@);
    assert(w@.skip(0) =~= w@);
    loop
        invariant
            v@ == p@,
            w@ == base@,
            i <= v@.len(),
            j <= w@.len(),
            behind(v@.skip(i as int), w@.skip(j as int)) == behind(p@, base@),
        decreases w@.len() - j,
    {
        let i1 = skip_ahead(&v, i);
        let j1 = skip_ahead(&w, j);
        let ghost s = v@.skip(i1 as int);
        let ghost b = w@.skip(j1 as int);
        proof {
            lemma_ahead(w@.skip(j as int));
            lemma_first_len(b);
        }
        if j1 == w.len() {
            let whole: usize = v.len();
            let rest = text_between(&v, i1, whole);
            assert(rest@ =~= s);
            let r = chars_of(rest.as_str());
            let n: usize = r.len();
            assert(r@.take(n as int) =~= rest@);
            let end = trimmed_end(&r, n);
            assert(r@.subrange(0, end as int) =~= r@.take(end as int));
            return Some(text_between(&r, 0, end));
        }
        if i1 == v.len() {
            return None;
        }
        let i2 = component_end(&v, i1);
        let j2 = component_end(&w, j1);
        let left = text_between(&v, i1, i2);
        let right = text_between(&w, j1, j2);
        assert(left@ =~= s.take(first_len(s)));
        assert(right@ =~= b.take(first_len(b)));
        if !same_text(left.as_str(), right.as_str()) {
            return None;
        }
        assert(v@.skip(i2 as int) =~= s.skip(first_len(s)));
        assert(w@.skip(j2 as int) =~= b.skip(first_len(b)));
        i = i2;
        j = j2;
    }
}

} // verus!
