//! Texts as sequences of characters: searching, trimming, splitting and joining.

use vstd::prelude::*;

verus! {

/// `String::push` appends one character.
pub assume_specification[ String::push ](s: &mut String, c: char)
    ensures
        final(s)@ == old(s)@.push(c),
;

/// The characters with the Unicode property `White_Space`.
pub open spec fn is_space(c: char) -> bool {
    ||| '\u{9}' <= c <= '\u{D}'
    ||| c == ' '
    ||| c == '\u{85}'
    ||| c == '\u{A0}'
    ||| c == '\u{1680}'
    ||| '\u{2000}' <= c <= '\u{200A}'
    ||| c == '\u{2028}'
    ||| c == '\u{2029}'
    ||| c == '\u{202F}'
    ||| c == '\u{205F}'
    ||| c == '\u{3000}'
}

pub fn whitespace(c: char) -> (r: bool)
    ensures
        r == is_space(c),
{
    ('\u{9}' <= c && c <= '\u{D}') || c == ' ' || c == '\u{85}' || c == '\u{A0}' || c == '\u{1680}'
        || ('\u{2000}' <= c && c <= '\u{200A}') || c == '\u{2028}' || c == '\u{2029}'
        || c == '\u{202F}' || c == '\u{205F}' || c == '\u{3000}'
}

/// The characters of a text, in order.
pub fn chars_of(s: &str) -> (v: Vec<char>)
    ensures
        v@ == s@,
{
    let mut v: Vec<char> = Vec::new();
    for c in it: s.chars()
        invariant
            v@ == s@.take(it.index() as int),
            it.seq() == s@,
    {
        v.push(c);
        assert(s@.take(it.index() + 1) =~= s@.take(it.index() as int).push(c));
    }
    assert(s@.take(s@.len() as int) =~= s@);
    v
}

/// The text of the characters from `from` to `to`.
pub fn text_between(v: &Vec<char>, from: usize, to: usize) -> (s: String)
    requires
        from <= to <= v@.len(),
    ensures
        s@ == v@.subrange(from as int, to as int),
{
    let mut s = String::new();
    let mut i: usize = from;
    while i < to
        invariant
            from <= i <= to <= v@.len(),
            s@ == v@.subrange(from as int, i as int),
        decreases to - i,
    {
        s.push(v[i]);
        assert(v@.subrange(from as int, i + 1) =~= v@.subrange(from as int, i as int).push(v@[i as int]));
        i = i + 1;
    }
    s
}

/// Whether two texts hold the same characters.
pub fn same_text(a: &str, b: &str) -> (r: bool)
    ensures
        r == (a@ == b@),
{
    let left: String = a.to_owned();
    let right: String = b.to_owned();
    left == right
}

/// One text after another.
pub fn concat(a: &str, b: &str) -> (r: String)
    ensures
        r@ == a@ + b@,
{
    let mut out: String = a.to_owned();
    out.append(b);
    out
}

// ---------------------------------------------------------------------------
// Searching
// ---------------------------------------------------------------------------

/// Whether `part` stands in `s` with its first character at `i`.
pub open spec fn occurs_at(s: Seq<char>, part: Seq<char>, i: int) -> bool {
    0 <= i && i + part.len() <= s.len() && s.subrange(i, i + part.len()) == part
}

/// Whether `part` stands anywhere in `s`.
pub open spec fn occurs(s: Seq<char>, part: Seq<char>) -> bool {
    exists|i: int| occurs_at(s, part, i)
}

/// `s` with every `part`, found from left to right, replaced by `by`.
pub open spec fn replaced(s: Seq<char>, part: Seq<char>, by: Seq<char>) -> Seq<char>
    decreases s.len(),
{
    if part.len() == 0 || s.len() < part.len() {
        s
    } else if part.is_prefix_of(s) {
        by + replaced(s.skip(part.len() as int), part, by)
    } else {
        seq![s[0]] + replaced(s.drop_first(), part, by)
    }
}

/// `s` with every character `from` replaced by `to`.
pub open spec fn char_replaced(s: Seq<char>, from: char, to: char) -> Seq<char> {
    s.map_values(|c: char| if c == from { to } else { c })
}

pub fn matches_at(v: &Vec<char>, i: usize, part: &Vec<char>) -> (r: bool)
    requires
        i <= v@.len(),
    ensures
        r == occurs_at(v@, part@, i as int),
{
    if part.len() > v.len() - i {
        return false;
    }
    let mut k: usize = 0;
    while k < part.len()
        invariant
            k <= part@.len(),
            i + part@.len() <= v@.len() <= usize::MAX,
            forall|j: int| 0 <= j < k ==> v@[i + j] == part@[j],
        decreases part@.len() - k,
    {
        if v[i + k] != part[k] {
            assert(v@.subrange(i as int, i + part@.len())[k as int] != part@[k as int]);
            return false;
        }
        k = k + 1;
    }
    assert(v@.subrange(i as int, i + part@.len()) =~= part@);
    true
}

pub fn starts_with(s: &str, part: &str) -> (r: bool)
    ensures
        r == part@.is_prefix_of(s@),
{
    let v = chars_of(s);
    let p = chars_of(part);
    matches_at(&v, 0, &p)
}

pub fn ends_with(s: &str, part: &str) -> (r: bool)
    ensures
        r == part@.is_suffix_of(s@),
{
    let v = chars_of(s);
    let p = chars_of(part);
    if p.len() > v.len() {
        return false;
    }
    matches_at(&v, v.len() - p.len(), &p)
}

pub fn contains(s: &str, part: &str) -> (r: bool)
    ensures
        r == occurs(s@, part@),
{
    let v = chars_of(s);
    let p = chars_of(part);
    let mut i: usize = 0;
    while i < v.len()
        invariant
            i <= v@.len(),
            v@ == s@,
            p@ == part@,
            forall|j: int| 0 <= j < i ==> !occurs_at(v@, p@, j),
        decreases v@.len() - i,
    {
        if matches_at(&v, i, &p) {
            return true;
        }
        i = i + 1;
    }
    let last = matches_at(&v, i, &p);
    assert(occurs(s@, part@) ==> last) by {
        if occurs(s@, part@) {
            let j = choose|j: int| occurs_at(s@, part@, j);
            assert(j == i);
        }
    }
    last
}

pub fn replace(s: &str, part: &str, by: &str) -> (r: String)
    ensures
        r@ == replaced(s@, part@, by@),
{
    let v = chars_of(s);
    let p = chars_of(part);
    if p.len() == 0 {
        return s.to_owned();
    }
    let mut out = String::new();
    let mut i: usize = 0;
    assert(v@.skip(0) =~= v@);
    while i < v.len()
        invariant
            i <= v@.len(),
            v@ == s@,
            p@ == part@,
            p@.len() > 0,
            out@ + replaced(v@.skip(i as int), p@, by@) == replaced(v@, p@, by@),
        decreases v@.len() - i,
    {
        let ghost rest = v@.skip(i as int);
        let ghost before = out@;
        if matches_at(&v, i, &p) {
            assert(rest.subrange(0, p@.len() as int) =~= v@.subrange(i as int, i + p@.len()));
            assert(rest.skip(p@.len() as int) =~= v@.skip(i + p@.len()));
            out.append(by);
            i = i + p.len();
            assert(before + (by@ + replaced(v@.skip(i as int), p@, by@)) =~= out@ + replaced(
                v@.skip(i as int),
                p@,
                by@,
            ));
        } else {
            proof {
                if p@.len() <= rest.len() && p@.is_prefix_of(rest) {
                    assert(v@.subrange(i as int, i + p@.len()) =~= p@);
                }
                assert(rest.drop_first() =~= v@.skip(i + 1));
                if rest.len() < p@.len() {
                    assert(rest =~= seq![rest[0]] + v@.skip(i + 1));
                }
            }
            out.push(v[i]);
            i = i + 1;
            assert(before + (seq![rest[0]] + replaced(v@.skip(i as int), p@, by@)) =~= out@
                + replaced(v@.skip(i as int), p@, by@));
        }
    }
    assert(v@.skip(i as int) =~= Seq::<char>::empty());
    assert(out@ + Seq::<char>::empty() =~= out@);
    out
}

pub fn replace_char(s: &str, from: char, to: char) -> (r: String)
    ensures
        r@ == char_replaced(s@, from, to),
{
    let v = chars_of(s);
    let mut out = String::new();
    let mut i: usize = 0;
    while i < v.len()
        invariant
            i <= v@.len(),
            v@ == s@,
            out@.len() == i,
            forall|j: int| 0 <= j < i ==> out@[j] == char_replaced(s@, from, to)[j],
        decreases v@.len() - i,
    {
        let c = v[i];
        if c == from {
            out.push(to);
        } else {
            out.push(c);
        }
        i = i + 1;
    }
    assert(out@ =~= char_replaced(s@, from, to));
    out
}

/// The small letter of an ASCII capital; any other character as it is.
pub open spec fn lower(c: char) -> char {
    if 'A' <= c <= 'Z' {
        (c as int + 32) as char
    } else {
        c
    }
}

/// `s` with its ASCII capitals as small letters.
pub open spec fn lowered(s: Seq<char>) -> Seq<char> {
    s.map_values(|c: char| lower(c))
}

pub fn to_ascii_lowercase(s: &str) -> (r: String)
    ensures
        r@ == lowered(s@),
{
    let v = chars_of(s);
    let mut out = String::new();
    let mut i: usize = 0;
    while i < v.len()
        invariant
            i <= v@.len(),
            v@ == s@,
            out@.len() == i,
            forall|j: int| 0 <= j < i ==> out@[j] == lowered(s@)[j],
        decreases v@.len() - i,
    {
        let c = v[i];
        if 'A' <= c && c <= 'Z' {
            out.push((c as u8 + 32u8) as char);
        } else {
            out.push(c);
        }
        i = i + 1;
    }
    assert(out@ =~= lowered(s@));
    out
}

// ---------------------------------------------------------------------------
// Trimming
// ---------------------------------------------------------------------------

/// The white space characters, as a set.
pub open spec fn spaces() -> spec_fn(char) -> bool {
    |c: char| is_space(c)
}

/// The slash alone, as a set.
pub open spec fn slashes() -> spec_fn(char) -> bool {
    |c: char| c == '/'
}

/// `s` without the characters of `set` that it starts with.
pub open spec fn without_front(s: Seq<char>, set: spec_fn(char) -> bool) -> Seq<char>
    decreases s.len(),
{
    if s.len() > 0 && set(s[0]) {
        without_front(s.drop_first(), set)
    } else {
        s
    }
}

/// `s` without the characters of `set` that it ends with.
pub open spec fn without_back(s: Seq<char>, set: spec_fn(char) -> bool) -> Seq<char>
    decreases s.len(),
{
    if s.len() > 0 && set(s.last()) {
        without_back(s.drop_last(), set)
    } else {
        s
    }
}

/// `s` without white space at either end.
pub open spec fn trimmed(s: Seq<char>) -> Seq<char> {
    without_back(without_front(s, spaces()), spaces())
}

/// `s` without slashes at either end.
pub open spec fn slash_trimmed(s: Seq<char>) -> Seq<char> {
    without_back(without_front(s, slashes()), slashes())
}

/// `s` without the copies of `part` that it starts with.
pub open spec fn without_prefixes(s: Seq<char>, part: Seq<char>) -> Seq<char>
    decreases s.len(),
{
    if part.len() > 0 && part.is_prefix_of(s) {
        without_prefixes(s.skip(part.len() as int), part)
    } else {
        s
    }
}

/// A text with a character that is no white space is not blank.
pub proof fn lemma_not_blank(s: Seq<char>, i: int)
    requires
        0 <= i < s.len(),
        !is_space(s[i]),
    ensures
        trimmed(s).len() > 0,
    decreases s.len(),
{
    if is_space(s[0]) {
        lemma_not_blank(s.drop_first(), i - 1);
    } else {
        lemma_back_not_blank(s);
    }
}

proof fn lemma_back_not_blank(s: Seq<char>)
    requires
        s.len() > 0,
        !is_space(s[0]),
    ensures
        without_back(s, spaces()).len() > 0,
    decreases s.len(),
{
    if is_space(s.last()) {
        lemma_back_not_blank(s.drop_last());
    }
}

/// Where the text starts once the leading white space is skipped.
fn space_front(v: &Vec<char>) -> (i: usize)
    ensures
        i <= v@.len(),
        v@.skip(i as int) == without_front(v@, spaces()),
{
    let mut i: usize = 0;
    assert(v@.skip(0) =~= v@);
    while i < v.len() && whitespace(v[i])
        invariant
            i <= v@.len(),
            without_front(v@.skip(i as int), spaces()) == without_front(v@, spaces()),
        decreases v@.len() - i,
    {
        assert(v@.skip(i as int).drop_first() =~= v@.skip(i + 1));
        i = i + 1;
    }
    i
}

pub fn trim(s: &str) -> (r: String)
    ensures
        r@ == trimmed(s@),
{
    let v = chars_of(s);
    let from = space_front(&v);
    let mut to: usize = v.len();
    assert(v@.subrange(from as int, to as int) =~= v@.skip(from as int));
    while to > from && whitespace(v[to - 1])
        invariant
            from <= to <= v@.len(),
            without_back(v@.subrange(from as int, to as int), spaces()) == trimmed(v@),
        decreases to,
    {
        assert(v@.subrange(from as int, to as int).drop_last() =~= v@.subrange(from as int, to - 1));
        to = to - 1;
    }
    text_between(&v, from, to)
}

pub fn trim_start(s: &str) -> (r: String)
    ensures
        r@ == without_front(s@, spaces()),
{
    let v = chars_of(s);
    let from = space_front(&v);
    assert(v@.subrange(from as int, v@.len() as int) =~= v@.skip(from as int));
    text_between(&v, from, v.len())
}

/// Where the text starts once the leading slashes are skipped.
fn slash_front(v: &Vec<char>) -> (i: usize)
    ensures
        i <= v@.len(),
        v@.skip(i as int) == without_front(v@, slashes()),
{
    let mut i: usize = 0;
    assert(v@.skip(0) =~= v@);
    while i < v.len() && v[i] == '/'
        invariant
            i <= v@.len(),
            without_front(v@.skip(i as int), slashes()) == without_front(v@, slashes()),
        decreases v@.len() - i,
    {
        assert(v@.skip(i as int).drop_first() =~= v@.skip(i + 1));
        i = i + 1;
    }
    i
}

pub fn trim_slashes(s: &str) -> (r: String)
    ensures
        r@ == slash_trimmed(s@),
{
    let v = chars_of(s);
    let from = slash_front(&v);
    let mut to: usize = v.len();
    assert(v@.subrange(from as int, to as int) =~= v@.skip(from as int));
    while to > from && v[to - 1] == '/'
        invariant
            from <= to <= v@.len(),
            without_back(v@.subrange(from as int, to as int), slashes()) == slash_trimmed(v@),
        decreases to,
    {
        assert(v@.subrange(from as int, to as int).drop_last() =~= v@.subrange(from as int, to - 1));
        to = to - 1;
    }
    text_between(&v, from, to)
}

pub fn trim_start_slashes(s: &str) -> (r: String)
    ensures
        r@ == without_front(s@, slashes()),
{
    let v = chars_of(s);
    let from = slash_front(&v);
    assert(v@.subrange(from as int, v@.len() as int) =~= v@.skip(from as int));
    text_between(&v, from, v.len())
}

pub fn trim_start_matches(s: &str, part: &str) -> (r: String)
    ensures
        r@ == without_prefixes(s@, part@),
{
    let v = chars_of(s);
    let p = chars_of(part);
    let mut i: usize = 0;
    assert(v@.skip(0) =~= v@);
    let n: usize = v.len();
    while p.len() > 0 && matches_at(&v, i, &p)
        invariant
            i <= v@.len() == n,
            v@ == s@,
            p@ == part@,
            without_prefixes(v@.skip(i as int), p@) == without_prefixes(v@, p@),
        decreases v@.len() - i,
    {
        assert(v@.skip(i as int).subrange(0, p@.len() as int) =~= v@.subrange(
            i as int,
            i + p@.len(),
        ));
        assert(v@.skip(i as int).skip(p@.len() as int) =~= v@.skip(i + p@.len()));
        i = i + p.len();
    }
    proof {
        if p@.len() > 0 && p@.is_prefix_of(v@.skip(i as int)) {
            assert(v@.subrange(i as int, i + p@.len()) =~= p@);
        }
        assert(v@.subrange(i as int, v@.len() as int) =~= v@.skip(i as int));
    }
    text_between(&v, i, v.len())
}

// ---------------------------------------------------------------------------
// Splitting and joining
// ---------------------------------------------------------------------------

/// The runs of characters between slashes, without the empty ones, read from
/// left to right: a slash ends the run before it, any other character starts a
/// run or prolongs the one it follows.
pub open spec fn segments(s: Seq<char>) -> Seq<Seq<char>>
    decreases s.len(),
{
    if s.len() == 0 {
        Seq::empty()
    } else {
        let before = s.drop_last();
        let c = s.last();
        if c == '/' {
            segments(before)
        } else if before.len() == 0 || before.last() == '/' {
            segments(before).push(seq![c])
        } else {
            segments(before).drop_last().push(segments(before).last().push(c))
        }
    }
}

/// The texts one after another, with `sep` between two of them.
pub open spec fn joined(parts: Seq<Seq<char>>, sep: Seq<char>) -> Seq<char>
    decreases parts.len(),
{
    if parts.len() == 0 {
        Seq::empty()
    } else if parts.len() == 1 {
        parts[0]
    } else {
        joined(parts.drop_last(), sep) + sep + parts.last()
    }
}

/// The characters of each text of a list.
pub open spec fn views(v: Seq<String>) -> Seq<Seq<char>> {
    v.map_values(|s: String| s@)
}

/// A text that does not end in a slash ends in a segment.
pub proof fn lemma_segments_end(s: Seq<char>)
    ensures
        s.len() > 0 && s.last() != '/' ==> segments(s).len() > 0,
{
}

/// The segments of two texts with a slash between them are those of both.
pub proof fn lemma_segments_join(a: Seq<char>, b: Seq<char>)
    ensures
        segments(a + seq!['/'] + b) == segments(a) + segments(b),
    decreases b.len(),
{
    let whole = a + seq!['/'] + b;
    if b.len() == 0 {
        assert(whole.drop_last() =~= a);
        assert(segments(a) + segments(b) =~= segments(a));
    } else {
        let before = b.drop_last();
        let c = b.last();
        lemma_segments_join(a, before);
        assert(whole.drop_last() =~= a + seq!['/'] + before);
        let left = a + seq!['/'] + before;
        if before.len() > 0 {
            assert(left.last() == before.last());
        }
        if c != '/' {
            if before.len() == 0 || before.last() == '/' {
                assert(segments(a) + segments(before).push(seq![c]) =~= (segments(a) + segments(
                    before,
                )).push(seq![c]));
            } else {
                lemma_segments_end(before);
                let s = segments(before);
                assert((segments(a) + s).drop_last() =~= segments(a) + s.drop_last());
                assert((segments(a) + s).last() == s.last());
                assert(segments(a) + s.drop_last().push(s.last().push(c)) =~= (segments(a)
                    + s.drop_last()).push(s.last().push(c)));
            }
        }
    }
}

/// A text without a slash is its own only segment.
pub proof fn lemma_segments_single(s: Seq<char>)
    requires
        s.len() > 0,
        !s.contains('/'),
    ensures
        segments(s) == seq![s],
    decreases s.len(),
{
    let before = s.drop_last();
    assert(s[s.len() - 1] != '/');
    if before.len() == 0 {
        reveal_with_fuel(segments, 2);
        assert(s =~= seq![s.last()]);
        assert(segments(s) =~= seq![s]);
    } else {
        assert forall|i: int| 0 <= i < before.len() implies before[i] != '/' by {
            assert(s[i] != '/');
        }
        lemma_segments_single(before);
        assert(before[before.len() - 1] != '/');
        assert(seq![before].drop_last().push(before.push(s.last())) =~= seq![s]) by {
            assert(before.push(s.last()) =~= s);
        }
    }
}

/// A segment is not empty and has no slash in it.
pub proof fn lemma_segments_clean(s: Seq<char>)
    ensures
        forall|k: int|
            0 <= k < segments(s).len() ==> (#[trigger] segments(s)[k]).len() > 0 && !segments(
                s,
            )[k].contains('/'),
    decreases s.len(),
{
    if s.len() > 0 {
        let before = s.drop_last();
        let c = s.last();
        lemma_segments_clean(before);
        if c != '/' && before.len() > 0 && before.last() != '/' {
            lemma_segments_end(before);
            let run = segments(before).last();
            assert(!run.contains('/'));
            assert(!run.push(c).contains('/')) by {
                assert forall|i: int| 0 <= i < run.push(c).len() implies run.push(c)[i] != '/' by {
                    if i < run.len() {
                        assert(run.contains(run[i]));
                    }
                }
            }
        }
    }
}

/// A character that is not in a text is in none of its segments.
pub proof fn lemma_segments_without(s: Seq<char>, x: char)
    requires
        !s.contains(x),
    ensures
        forall|k: int| 0 <= k < segments(s).len() ==> !(#[trigger] segments(s)[k]).contains(x),
    decreases s.len(),
{
    if s.len() > 0 {
        let before = s.drop_last();
        let c = s.last();
        assert(s[s.len() - 1] != x);
        assert(!before.contains(x)) by {
            assert forall|i: int| 0 <= i < before.len() implies before[i] != x by {
                assert(s[i] != x);
            }
        }
        lemma_segments_without(before, x);
        if c != '/' && before.len() > 0 && before.last() != '/' {
            lemma_segments_end(before);
            let run = segments(before).last();
            assert forall|i: int| 0 <= i < run.push(c).len() implies run.push(c)[i] != x by {
                if i < run.len() {
                    assert(run.contains(run[i]));
                }
            }
        }
    }
}

/// A character other than the slash that is in no part is not in the parts
/// joined by slashes.
pub proof fn lemma_joined_without(parts: Seq<Seq<char>>, x: char)
    requires
        x != '/',
        forall|k: int| 0 <= k < parts.len() ==> !(#[trigger] parts[k]).contains(x),
    ensures
        !joined(parts, seq!['/']).contains(x),
    decreases parts.len(),
{
    if parts.len() > 1 {
        let before = parts.drop_last();
        lemma_joined_without(before, x);
        let left = joined(before, seq!['/']);
        let whole = joined(parts, seq!['/']);
        assert(!parts[parts.len() - 1].contains(x));
        assert forall|i: int| 0 <= i < whole.len() implies whole[i] != x by {
            if i < left.len() {
                assert(left.contains(left[i]));
            } else if i > left.len() {
                assert(parts.last().contains(parts.last()[i - left.len() - 1]));
            }
        }
    }
}

/// Texts without a slash, joined by slashes, are the segments again.
pub proof fn lemma_segments_joined(parts: Seq<Seq<char>>)
    requires
        forall|k: int|
            0 <= k < parts.len() ==> (#[trigger] parts[k]).len() > 0 && !parts[k].contains('/'),
    ensures
        segments(joined(parts, seq!['/'])) == parts,
        parts.len() > 0 ==> joined(parts, seq!['/']).len() > 0,
    decreases parts.len(),
{
    if parts.len() == 0 {
        assert(segments(joined(parts, seq!['/'])) =~= parts);
    } else if parts.len() == 1 {
        lemma_segments_single(parts[0]);
        assert(seq![parts[0]] =~= parts);
    } else {
        let before = parts.drop_last();
        lemma_segments_joined(before);
        lemma_segments_single(parts.last());
        lemma_segments_join(joined(before, seq!['/']), parts.last());
        assert(before + seq![parts.last()] =~= parts);
    }
}

/// The parts of two lists joined are the parts of each joined.
pub proof fn lemma_joined_concat(a: Seq<Seq<char>>, b: Seq<Seq<char>>, sep: Seq<char>)
    requires
        a.len() > 0,
        b.len() > 0,
    ensures
        joined(a + b, sep) == joined(a, sep) + sep + joined(b, sep),
    decreases b.len(),
{
    assert((a + b).drop_last() =~= a + b.drop_last());
    if b.len() == 1 {
        assert(a + b.drop_last() =~= a);
    } else {
        lemma_joined_concat(a, b.drop_last(), sep);
        assert(joined(a + b, sep) =~= joined(a, sep) + sep + joined(b, sep));
    }
}

/// The digits of a number written in decimal are decimal digits.
pub proof fn lemma_numeral_digits(n: nat)
    ensures
        numeral(n, 10).len() > 0,
        forall|i: int| 0 <= i < numeral(n, 10).len() ==> '0' <= #[trigger] numeral(n, 10)[i] <= '9',
    decreases n,
{
    if n >= 10 {
        lemma_numeral_digits(n / 10);
    }
}

/// The same with zeros in front.
pub proof fn lemma_padded_digits(n: nat, width: nat)
    ensures
        padded(n, width).len() > 0,
        padded(n, width).len() >= width,
        forall|i: int| 0 <= i < padded(n, width).len() ==> '0' <= #[trigger] padded(n, width)[i] <= '9',
{
    lemma_numeral_digits(n);
}

/// The value of a number written in decimal is the number.
pub proof fn lemma_numeral_value(n: nat)
    ensures
        number_value(numeral(n, 10)) == n,
    decreases n,
{
    assert(forall|d: int| 0 <= d < 10 ==> #[trigger] digit(d) as int == 48 + d);
    if n < 10 {
        assert(numeral(n, 10).drop_last() =~= Seq::<char>::empty());
        assert(number_value(Seq::<char>::empty()) == 0);
        assert(numeral(n, 10).last() == digit(n as int));
    } else {
        lemma_numeral_value(n / 10);
        assert(numeral(n, 10).drop_last() =~= numeral(n / 10, 10));
        assert(numeral(n, 10).last() == digit((n % 10) as int));
    }
}

proof fn lemma_zeros_value(zeros: Seq<char>, s: Seq<char>)
    requires
        forall|i: int| 0 <= i < zeros.len() ==> #[trigger] zeros[i] == '0',
    ensures
        number_value(zeros + s) == number_value(s),
    decreases zeros.len() + s.len(),
{
    if s.len() > 0 {
        lemma_zeros_value(zeros, s.drop_last());
        assert((zeros + s).drop_last() =~= zeros + s.drop_last());
    } else if zeros.len() > 0 {
        lemma_zeros_value(zeros.drop_last(), s);
        assert((zeros + s).drop_last() =~= zeros.drop_last() + s);
    }
}

/// The same with zeros in front.
pub proof fn lemma_padded_value(n: nat, width: nat)
    ensures
        number_value(padded(n, width)) == n,
        padded(n, width).len() > 0,
        '0' <= padded(n, width)[0] <= '9',
{
    lemma_numeral_value(n);
    lemma_padded_digits(n, width);
    let s = numeral(n, 10);
    if s.len() < width {
        lemma_zeros_value(Seq::new((width - s.len()) as nat, |i: int| '0'), s);
    }
}

/// A number below a hundred takes two digits with zeros in front.
pub proof fn lemma_two_digits(n: nat)
    requires
        n < 100,
    ensures
        padded(n, 2).len() == 2,
{
    reveal_with_fuel(numeral, 3);
}

pub fn split_segments(s: &str) -> (parts: Vec<String>)
    ensures
        views(parts@) == segments(s@),
{
    let v = chars_of(s);
    let mut parts: Vec<String> = Vec::new();
    let mut run = String::new();
    let mut i: usize = 0;
    assert(views(parts@) =~= segments(v@.take(0)));
    while i < v.len()
        invariant
            i <= v@.len(),
            v@ == s@,
            run@.len() == 0 <==> i == 0 || v@[i - 1] == '/',
            run@.len() == 0 ==> views(parts@) == segments(v@.take(i as int)),
            run@.len() > 0 ==> views(parts@).push(run@) == segments(v@.take(i as int)),
        decreases v@.len() - i,
    {
        let ghost now = v@.take(i + 1);
        let ghost old_run = run@;
        let ghost old_parts = views(parts@);
        assert(now.drop_last() =~= v@.take(i as int));
        let c = v[i];
        if c == '/' {
            if !run.as_str().is_empty() {
                parts.push(run);
                run = String::new();
                assert(views(parts@) =~= old_parts.push(old_run));
            }
        } else {
            run.push(c);
            proof {
                if old_run.len() == 0 {
                    assert(run@ =~= seq![c]);
                } else {
                    assert(old_parts.push(old_run).drop_last() =~= old_parts);
                }
            }
        }
        i = i + 1;
    }
    assert(v@.take(i as int) =~= s@);
    if !run.as_str().is_empty() {
        let ghost old_parts = views(parts@);
        let ghost old_run = run@;
        parts.push(run);
        assert(views(parts@) =~= old_parts.push(old_run));
    }
    parts
}

/// The first `n` texts joined by `sep`.
pub fn join_first(parts: &Vec<String>, n: usize, sep: &str) -> (r: String)
    requires
        n <= parts@.len(),
    ensures
        r@ == joined(views(parts@).take(n as int), sep@),
{
    let mut out = String::new();
    let mut i: usize = 0;
    let ghost all = views(parts@);
    assert(all.take(0) =~= Seq::<Seq<char>>::empty());
    while i < n
        invariant
            i <= n <= parts@.len(),
            all == views(parts@),
            out@ == joined(all.take(i as int), sep@),
        decreases n - i,
    {
        assert(all.take(i + 1).drop_last() =~= all.take(i as int));
        assert(all.take(i + 1).last() == parts@[i as int]@);
        if i > 0 {
            out.append(sep);
        } else {
            assert(all.take(1)[0] == parts@[0]@);
            assert(out@ + parts@[0]@ =~= parts@[0]@);
        }
        out.append(parts[i].as_str());
        i = i + 1;
    }
    out
}

// ---------------------------------------------------------------------------
// Numbers
// ---------------------------------------------------------------------------

/// The digit of value `d`, below sixteen, in lower case.
pub open spec fn digit(d: int) -> char {
    if d < 10 {
        (48 + d) as char
    } else {
        (87 + d) as char
    }
}

/// `n` written in base `base` with no leading zero.
pub open spec fn numeral(n: nat, base: nat) -> Seq<char>
    decreases n,
{
    if base < 2 || n < base {
        seq![digit(n as int)]
    } else {
        proof {
            assert(n / base < n) by (nonlinear_arith)
                requires
                    n >= base,
                    base >= 2,
            ;
        }
        numeral(n / base, base).push(digit((n % base) as int))
    }
}

/// `n` in decimal, with zeros in front up to `width` digits.
pub open spec fn padded(n: nat, width: nat) -> Seq<char> {
    let s = numeral(n, 10);
    if s.len() >= width {
        s
    } else {
        Seq::new((width - s.len()) as nat, |i: int| '0') + s
    }
}

/// The value of decimal digits.
pub open spec fn number_value(digits: Seq<char>) -> nat
    decreases digits.len(),
{
    if digits.len() == 0 {
        0
    } else {
        (10 * number_value(digits.drop_last()) + (digits.last() as int - '0' as int)) as nat
    }
}

/// An integer in decimal, with a minus sign where it is negative.
pub open spec fn signed_numeral(n: int) -> Seq<char> {
    if n < 0 {
        seq!['-'] + numeral((-n) as nat, 10)
    } else {
        numeral(n as nat, 10)
    }
}

fn digit_char(d: u64) -> (c: char)
    requires
        d < 16,
    ensures
        c == digit(d as int),
{
    if d < 10 {
        (48u8 + d as u8) as char
    } else {
        (87u8 + d as u8) as char
    }
}

pub fn write_numeral(n: u64, base: u64) -> (r: String)
    requires
        2 <= base <= 16,
    ensures
        r@ == numeral(n as nat, base as nat),
    decreases n,
{
    if n < base {
        let mut out = String::new();
        out.push(digit_char(n));
        assert(out@ =~= seq![digit(n as int)]);
        out
    } else {
        assert(n / base < n) by (nonlinear_arith)
            requires
                n >= base,
                base >= 2,
        ;
        let mut out = write_numeral(n / base, base);
        out.push(digit_char(n % base));
        out
    }
}

pub fn write_padded(n: u64, width: usize) -> (r: String)
    ensures
        r@ == padded(n as nat, width as nat),
{
    let digits = write_numeral(n, 10);
    let count: usize = chars_of(digits.as_str()).len();
    let mut out = String::new();
    if count < width {
        let mut i: usize = count;
        while i < width
            invariant
                count <= i <= width,
                out@ =~= Seq::new((i - count) as nat, |j: int| '0'),
            decreases width - i,
        {
            out.push('0');
            i = i + 1;
        }
    }
    out.append(digits.as_str());
    assert(out@ =~= padded(n as nat, width as nat));
    out
}

pub fn write_signed(n: i32) -> (r: String)
    ensures
        r@ == signed_numeral(n as int),
{
    if n < 0 {
        let magnitude: u64 = (-(n as i64)) as u64;
        let digits = write_numeral(magnitude, 10);
        let mut out = String::new();
        out.push('-');
        out.append(digits.as_str());
        assert(out@ =~= seq!['-'] + numeral((-n) as nat, 10));
        out
    } else {
        write_numeral(n as u64, 10)
    }
}

} // verus!
