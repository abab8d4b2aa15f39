//! Dates in English, read by `chrono_english`.
//!
//! The parser goes through a text token by token, and stops at the first that it
//! cannot use; it does not look at what is left then. On some texts it breaks: it
//! cuts a word within a character, takes something else for the fraction of a
//! second, or counts past its numbers or past the calendar. [`plain_english`]
//! leaves out these texts, and no others.

use vstd::prelude::*;

use chrono::Datelike;

use crate::date::{
    ascii_digit, ascii_letter, day_number, days_before_month, first_number, is_ascii_digit, is_ascii_letter,
    last_number, law_number_range, lemma_calendar_ends, CalendarDate, EnglishDialect, LocalDateTime,
};
use crate::text::{
    chars_of, is_space, lowered, number_value, same_text, starts_with, text_between,
    to_ascii_lowercase, whitespace,
};

verus! {

/// The texts on which the English parser returns at a moment.
pub open spec fn plain_english(s: Seq<char>, now: LocalDateTime) -> bool {
    s.len() < u32::MAX && date_read(s, now) != Reading::Breaks
}

/// How far the parser comes with a text, or with the rest of one.
#[derive(Clone, Copy, PartialEq, Eq, Structural)]
pub enum Reading {
    /// It can use it.
    Taken,
    /// It gives it back as no date.
    Refused,
    /// It does not return.
    Breaks,
}

// ---------------------------------------------------------------------------
// Characters
// ---------------------------------------------------------------------------

/// What `char::is_alphabetic` says.
pub uninterp spec fn alphabetic(c: char) -> bool;

/// What `char::is_numeric` says.
pub uninterp spec fn numeric(c: char) -> bool;

/// What `str::to_lowercase` gives.
pub uninterp spec fn lowercase(text: Seq<char>) -> Seq<char>;

/// `char::is_alphabetic`: whether a character has the Unicode property
/// `Alphabetic`.
#[verifier::external_body]
fn is_alphabetic(c: char) -> (r: bool)
    ensures
        r == alphabetic(c),
{
    c.is_alphabetic()
}

/// `char::is_numeric`: whether a character is of one of the Unicode categories of
/// numbers.
#[verifier::external_body]
fn is_numeric(c: char) -> (r: bool)
    ensures
        r == numeric(c),
{
    c.is_numeric()
}

/// `str::to_lowercase`: a text in small letters, by the Unicode property
/// `Lowercase`.
#[verifier::external_body]
fn to_lowercase(text: &str) -> (r: String)
    ensures
        r@ == lowercase(text@),
{
    text.to_lowercase()
}

/// A letter.
pub open spec fn letter(c: char) -> bool {
    if (c as u32) < 0x80 {
        ascii_letter(c)
    } else {
        alphabetic(c)
    }
}

/// A digit or another number.
pub open spec fn number_char(c: char) -> bool {
    if (c as u32) < 0x80 {
        ascii_digit(c)
    } else {
        numeric(c)
    }
}

/// What a word holds.
pub open spec fn word_char(c: char) -> bool {
    letter(c) || number_char(c) || c == '_'
}

/// The bytes that a character takes in UTF-8.
pub open spec fn width(c: char) -> int {
    if (c as u32) < 0x80 {
        1
    } else if (c as u32) < 0x800 {
        2
    } else if (c as u32) < 0x10000 {
        3
    } else {
        4
    }
}

/// A word in small letters.
pub open spec fn small(word: Seq<char>) -> Seq<char> {
    if forall|i: int| 0 <= i < word.len() ==> (#[trigger] word[i] as u32) < 0x80 {
        lowered(word)
    } else {
        lowercase(word)
    }
}

fn is_letter(c: char) -> (r: bool)
    ensures
        r == letter(c),
{
    if (c as u32) < 0x80 {
        is_ascii_letter(c)
    } else {
        is_alphabetic(c)
    }
}

fn is_number_char(c: char) -> (r: bool)
    ensures
        r == number_char(c),
{
    if (c as u32) < 0x80 {
        is_ascii_digit(c)
    } else {
        is_numeric(c)
    }
}

fn is_word_char(c: char) -> (r: bool)
    ensures
        r == word_char(c),
{
    is_letter(c) || is_number_char(c) || c == '_'
}

fn width_of(c: char) -> (r: usize)
    ensures
        r == width(c),
{
    if (c as u32) < 0x80 {
        1
    } else if (c as u32) < 0x800 {
        2
    } else if (c as u32) < 0x10000 {
        3
    } else {
        4
    }
}

// ---------------------------------------------------------------------------
// Tokens
// ---------------------------------------------------------------------------

#[derive(Clone, Copy, PartialEq, Eq, Structural)]
pub enum Kind {
    End,
    Number,
    Quoted,
    Word,
    Mark,
}

/// A token of a text: its kind, and where it starts and ends.
pub struct Token {
    pub kind: Kind,
    pub from: int,
    pub to: int,
}

/// The first place from `i` on without white space.
pub open spec fn after_spaces(s: Seq<char>, i: int) -> int
    decreases s.len() - i,
{
    if 0 <= i < s.len() && is_space(s[i]) {
        after_spaces(s, i + 1)
    } else {
        i
    }
}

/// The first place from `i` on without a digit.
pub open spec fn after_digits(s: Seq<char>, i: int) -> int
    decreases s.len() - i,
{
    if 0 <= i < s.len() && ascii_digit(s[i]) {
        after_digits(s, i + 1)
    } else {
        i
    }
}

/// The first place from `i` on without a digit or another number.
pub open spec fn after_numbers(s: Seq<char>, i: int) -> int
    decreases s.len() - i,
{
    if 0 <= i < s.len() && number_char(s[i]) {
        after_numbers(s, i + 1)
    } else {
        i
    }
}

/// The first place from `i` on that is no part of a word.
pub open spec fn after_word(s: Seq<char>, i: int) -> int
    decreases s.len() - i,
{
    if 0 <= i < s.len() && word_char(s[i]) {
        after_word(s, i + 1)
    } else {
        i
    }
}

/// The place after the first `quote` from `i` on; the end where there is none.
pub open spec fn after_quote(s: Seq<char>, i: int, quote: char) -> int
    decreases s.len() - i,
{
    if 0 <= i < s.len() {
        if s[i] == quote {
            i + 1
        } else {
            after_quote(s, i + 1, quote)
        }
    } else {
        s.len() as int
    }
}

/// The token from `i` on. White space before it does not count, and a NUL is the
/// end unless white space stands before it. What is quoted has at least one
/// character, whichever it is.
pub open spec fn token(s: Seq<char>, i: int) -> Token {
    let a = after_spaces(s, i);
    if a >= s.len() || (a == i && s[a] == '\0') {
        Token { kind: Kind::End, from: a, to: a }
    } else if ascii_digit(s[a]) {
        Token { kind: Kind::Number, from: a, to: after_digits(s, a) }
    } else if s[a] == '\'' || s[a] == '"' {
        Token { kind: Kind::Quoted, from: a, to: after_quote(s, a + 2, s[a]) }
    } else if letter(s[a]) || s[a] == '_' {
        Token { kind: Kind::Word, from: a, to: after_word(s, a + 1) }
    } else {
        Token { kind: Kind::Mark, from: a, to: a + 1 }
    }
}

/// Whether the character at a place is this one.
pub open spec fn stands_at(s: Seq<char>, i: int, c: char) -> bool {
    0 <= i < s.len() && s[i] == c
}

impl Token {
    pub open spec fn text(self, s: Seq<char>) -> Seq<char> {
        s.subrange(self.from, self.to)
    }

    pub open spec fn value(self, s: Seq<char>) -> nat {
        number_value(self.text(s))
    }

    /// A number of thirty-two bits.
    pub open spec fn is_count(self, s: Seq<char>) -> bool {
        self.kind == Kind::Number && self.value(s) <= u32::MAX
    }

    pub open spec fn is_mark(self, s: Seq<char>, c: char) -> bool {
        self.kind == Kind::Mark && s[self.from] == c
    }

    pub open spec fn is_word(self, s: Seq<char>, word: Seq<char>) -> bool {
        self.kind == Kind::Word && self.text(s) == word
    }
}

/// A token that was found in a text.
#[derive(Clone, Copy)]
struct Lexeme {
    kind: Kind,
    from: usize,
    to: usize,
}

impl View for Lexeme {
    type V = Token;

    closed spec fn view(&self) -> Token {
        Token { kind: self.kind, from: self.from as int, to: self.to as int }
    }
}

fn past_spaces(v: &Vec<char>, i: usize) -> (r: usize)
    requires
        i <= v@.len(),
    ensures
        i <= r <= v@.len(),
        r == after_spaces(v@, i as int),
{
    let mut k: usize = i;
    while k < v.len() && whitespace(v[k])
        invariant
            i <= k <= v@.len(),
            after_spaces(v@, k as int) == after_spaces(v@, i as int),
        decreases v@.len() - k,
    {
        k = k + 1;
    }
    k
}

fn past_digits(v: &Vec<char>, i: usize) -> (r: usize)
    requires
        i <= v@.len(),
    ensures
        i <= r <= v@.len(),
        r == after_digits(v@, i as int),
        forall|m: int| i <= m < r ==> ascii_digit(#[trigger] v@[m]),
{
    let mut k: usize = i;
    while k < v.len() && is_ascii_digit(v[k])
        invariant
            i <= k <= v@.len(),
            after_digits(v@, k as int) == after_digits(v@, i as int),
            forall|m: int| i <= m < k ==> ascii_digit(#[trigger] v@[m]),
        decreases v@.len() - k,
    {
        k = k + 1;
    }
    k
}

fn past_numbers(v: &Vec<char>, i: usize) -> (r: usize)
    requires
        i <= v@.len(),
    ensures
        i <= r <= v@.len(),
        r == after_numbers(v@, i as int),
{
    let mut k: usize = i;
    while k < v.len() && is_number_char(v[k])
        invariant
            i <= k <= v@.len(),
            after_numbers(v@, k as int) == after_numbers(v@, i as int),
        decreases v@.len() - k,
    {
        k = k + 1;
    }
    k
}

fn past_word(v: &Vec<char>, i: usize) -> (r: usize)
    requires
        i <= v@.len(),
    ensures
        i <= r <= v@.len(),
        r == after_word(v@, i as int),
{
    let mut k: usize = i;
    while k < v.len() && is_word_char(v[k])
        invariant
            i <= k <= v@.len(),
            after_word(v@, k as int) == after_word(v@, i as int),
        decreases v@.len() - k,
    {
        k = k + 1;
    }
    k
}

fn past_quote(v: &Vec<char>, i: usize, quote: char) -> (r: usize)
    requires
        i <= v@.len() + 1,
        i <= usize::MAX,
    ensures
        r <= v@.len(),
        r == after_quote(v@, i as int, quote),
{
    let mut k: usize = i;
    while k < v.len()
        invariant
            k <= v@.len() + 1,
            after_quote(v@, k as int, quote) == after_quote(v@, i as int, quote),
        decreases v@.len() + 1 - k,
    {
        if v[k] == quote {
            return k + 1;
        }
        k = k + 1;
    }
    v.len()
}

/// The token from `i` on.
fn next_token(v: &Vec<char>, i: usize) -> (r: Lexeme)
    requires
        i <= v@.len(),
        v@.len() < u32::MAX,
    ensures
        r@ == token(v@, i as int),
        i <= r.from <= r.to <= v@.len(),
        r.kind != Kind::End ==> r.from < r.to,
        r.kind == Kind::Number ==> forall|m: int| r.from <= m < r.to ==> ascii_digit(#[trigger] v@[m]),
{
    let a = past_spaces(v, i);
    if a >= v.len() || (a == i && v[a] == '\0') {
        return Lexeme { kind: Kind::End, from: a, to: a };
    }
    let c = v[a];
    if is_ascii_digit(c) {
        let to = past_digits(v, a + 1);
        Lexeme { kind: Kind::Number, from: a, to }
    } else if c == '\'' || c == '"' {
        let to = past_quote(v, a + 2, c);
        proof {
            lemma_quote_end(v@, a + 2, c);
        }
        Lexeme { kind: Kind::Quoted, from: a, to }
    } else if is_letter(c) || c == '_' {
        let to = past_word(v, a + 1);
        Lexeme { kind: Kind::Word, from: a, to }
    } else {
        Lexeme { kind: Kind::Mark, from: a, to: a + 1 }
    }
}

proof fn lemma_quote_end(s: Seq<char>, i: int, quote: char)
    requires
        0 <= i <= s.len() + 1,
    ensures
        after_quote(s, i, quote) >= i || after_quote(s, i, quote) == s.len(),
    decreases s.len() - i,
{
    if i < s.len() && s[i] != quote {
        lemma_quote_end(s, i + 1, quote);
    }
}

fn stands(v: &Vec<char>, i: usize, c: char) -> (r: bool)
    ensures
        r == stands_at(v@, i as int, c),
{
    i < v.len() && v[i] == c
}

/// The value of the digits from `i` to `j`, where it fits in sixty-three bits.
fn value_between(v: &Vec<char>, i: usize, j: usize) -> (r: Option<u64>)
    requires
        i <= j <= v@.len(),
        forall|k: int| i <= k < j ==> ascii_digit(#[trigger] v@[k]),
    ensures
        match r {
            Some(n) => n == number_value(v@.subrange(i as int, j as int)) && n <= i64::MAX,
            None => number_value(v@.subrange(i as int, j as int)) > i64::MAX,
        },
{
    let mut n: u64 = 0;
    let mut k: usize = i;
    assert(v@.subrange(i as int, i as int) =~= Seq::<char>::empty());
    while k < j
        invariant
            i <= k <= j <= v@.len(),
            forall|m: int| i <= m < j ==> ascii_digit(#[trigger] v@[m]),
            n == number_value(v@.subrange(i as int, k as int)),
            n <= i64::MAX,
        decreases j - k,
    {
        let digit: u64 = (v[k] as u64) - 48;
        assert(v@.subrange(i as int, k + 1).drop_last() =~= v@.subrange(i as int, k as int));
        let wide: u128 = 10 * (n as u128) + digit as u128;
        assert(wide == number_value(v@.subrange(i as int, k + 1)));
        if wide > 0x7fff_ffff_ffff_ffff {
            proof {
                lemma_value_grows(v@, i as int, k + 1, j as int);
            }
            return None;
        }
        n = wide as u64;
        k = k + 1;
    }
    Some(n)
}

proof fn lemma_value_grows(s: Seq<char>, i: int, k: int, j: int)
    requires
        0 <= i <= k <= j <= s.len(),
        forall|m: int| i <= m < j ==> ascii_digit(#[trigger] s[m]),
    ensures
        number_value(s.subrange(i, k)) <= number_value(s.subrange(i, j)),
    decreases j - k,
{
    if k < j {
        lemma_value_grows(s, i, k, j - 1);
        assert(s.subrange(i, j).drop_last() =~= s.subrange(i, j - 1));
        assert(ascii_digit(s[j - 1]));
    }
}

/// The value of a token that is a number of thirty-two bits.
fn count_of(v: &Vec<char>, t: &Lexeme) -> (r: Option<u64>)
    requires
        t.from <= t.to <= v@.len(),
        t.kind == Kind::Number ==> forall|m: int| t.from <= m < t.to ==> ascii_digit(#[trigger] v@[m]),
    ensures
        r is Some <==> t@.is_count(v@),
        r matches Some(n) ==> n == t@.value(v@) && n <= u32::MAX,
{
    match t.kind {
        Kind::Number => match value_between(v, t.from, t.to) {
            Some(n) => if n <= 0xffff_ffff {
                Some(n)
            } else {
                None
            },
            None => None,
        },
        _ => None,
    }
}

fn is_mark(v: &Vec<char>, t: &Lexeme, c: char) -> (r: bool)
    requires
        t.from <= t.to <= v@.len(),
        t.kind != Kind::End ==> t.from < t.to,
    ensures
        r == t@.is_mark(v@, c),
{
    match t.kind {
        Kind::Mark => v[t.from] == c,
        _ => false,
    }
}

fn is_word(v: &Vec<char>, t: &Lexeme, word: &str) -> (r: bool)
    requires
        t.from <= t.to <= v@.len(),
    ensures
        r == t@.is_word(v@, word@),
{
    match t.kind {
        Kind::Word => {
            let text = text_between(v, t.from, t.to);
            same_text(text.as_str(), word)
        },
        _ => false,
    }
}

/// The word of a token in small letters.
fn small_word(v: &Vec<char>, t: &Lexeme) -> (r: String)
    requires
        t.from <= t.to <= v@.len(),
    ensures
        r@ == small(t@.text(v@)),
{
    let text = text_between(v, t.from, t.to);
    let ghost word = t@.text(v@);
    let mut k: usize = t.from;
    while k < t.to
        invariant
            t.from <= k <= t.to <= v@.len(),
            word == v@.subrange(t.from as int, t.to as int),
            word == t@.text(v@),
            text@ == word,
            forall|m: int| 0 <= m < k - t.from ==> (#[trigger] word[m] as u32) < 0x80,
        decreases t.to - k,
    {
        assert(word[k - t.from] == v@[k as int]);
        if v[k] as u32 >= 0x80 {
            return to_lowercase(text.as_str());
        }
        k = k + 1;
    }
    to_ascii_lowercase(text.as_str())
}

// ---------------------------------------------------------------------------
// Names of days, months and units
// ---------------------------------------------------------------------------

/// Whether a word takes less than three bytes.
pub open spec fn is_short(w: Seq<char>) -> bool {
    ||| w.len() == 0
    ||| w.len() == 1 && width(w[0]) < 3
    ||| w.len() == 2 && width(w[0]) + width(w[1]) < 3
}

/// Whether a word can be cut behind its third byte.
pub open spec fn cuts_at_three(w: Seq<char>) -> bool {
    ||| w.len() > 0 && width(w[0]) == 3
    ||| w.len() > 1 && width(w[0]) + width(w[1]) == 3
    ||| w.len() > 2 && width(w[0]) + width(w[1]) + width(w[2]) == 3
}

/// Whether a word can be cut behind its first byte.
pub open spec fn cuts_at_one(w: Seq<char>) -> bool {
    w.len() > 0 && width(w[0]) == 1
}

/// Whether a word starts like the name of a week day.
pub open spec fn names_week_day(w: Seq<char>) -> bool {
    "sun"@.is_prefix_of(w) || "mon"@.is_prefix_of(w) || "tue"@.is_prefix_of(w)
        || "wed"@.is_prefix_of(w) || "thu"@.is_prefix_of(w) || "fri"@.is_prefix_of(w)
        || "sat"@.is_prefix_of(w)
}

/// Whether a word starts like the name of a month.
pub open spec fn names_month(w: Seq<char>) -> bool {
    "jan"@.is_prefix_of(w) || "feb"@.is_prefix_of(w) || "mar"@.is_prefix_of(w)
        || "apr"@.is_prefix_of(w) || "may"@.is_prefix_of(w) || "jun"@.is_prefix_of(w)
        || "jul"@.is_prefix_of(w) || "aug"@.is_prefix_of(w) || "sep"@.is_prefix_of(w)
        || "oct"@.is_prefix_of(w) || "nov"@.is_prefix_of(w) || "dec"@.is_prefix_of(w)
}

/// What a word counts.
#[derive(Clone, Copy, PartialEq, Eq, Structural)]
pub enum Unit {
    Day,
    Week,
    Month,
    Year,
    /// Seconds, minutes or hours.
    Short,
}

/// The unit that a word stands for, by its first three letters; a shorter word by
/// its first.
pub open spec fn unit_of(w: Seq<char>) -> Option<Unit> {
    if is_short(w) {
        if "d"@.is_prefix_of(w) {
            Some(Unit::Day)
        } else if "w"@.is_prefix_of(w) {
            Some(Unit::Week)
        } else if "y"@.is_prefix_of(w) {
            Some(Unit::Year)
        } else if "s"@.is_prefix_of(w) || "m"@.is_prefix_of(w) || "h"@.is_prefix_of(w) {
            Some(Unit::Short)
        } else {
            None
        }
    } else if "day"@.is_prefix_of(w) {
        Some(Unit::Day)
    } else if "wee"@.is_prefix_of(w) {
        Some(Unit::Week)
    } else if "mon"@.is_prefix_of(w) {
        Some(Unit::Month)
    } else if "yea"@.is_prefix_of(w) {
        Some(Unit::Year)
    } else if "sec"@.is_prefix_of(w) || "min"@.is_prefix_of(w) || "hou"@.is_prefix_of(w) {
        Some(Unit::Short)
    } else {
        None
    }
}

fn is_short_word(w: &Vec<char>) -> (r: bool)
    ensures
        r == is_short(w@),
{
    w.len() == 0 || (w.len() == 1 && width_of(w[0]) < 3) || (w.len() == 2 && width_of(w[0])
        + width_of(w[1]) < 3)
}

fn can_cut_at_three(w: &Vec<char>) -> (r: bool)
    ensures
        r == cuts_at_three(w@),
{
    (w.len() > 0 && width_of(w[0]) == 3) || (w.len() > 1 && width_of(w[0]) + width_of(w[1]) == 3)
        || (w.len() > 2 && width_of(w[0]) + width_of(w[1]) + width_of(w[2]) == 3)
}

fn can_cut_at_one(w: &Vec<char>) -> (r: bool)
    ensures
        r == cuts_at_one(w@),
{
    w.len() > 0 && width_of(w[0]) == 1
}

fn is_week_day(w: &str) -> (r: bool)
    ensures
        r == names_week_day(w@),
{
    starts_with(w, "sun") || starts_with(w, "mon") || starts_with(w, "tue") || starts_with(w, "wed")
        || starts_with(w, "thu") || starts_with(w, "fri") || starts_with(w, "sat")
}

fn is_month(w: &str) -> (r: bool)
    ensures
        r == names_month(w@),
{
    starts_with(w, "jan") || starts_with(w, "feb") || starts_with(w, "mar") || starts_with(w, "apr")
        || starts_with(w, "may") || starts_with(w, "jun") || starts_with(w, "jul") || starts_with(
        w,
        "aug",
    ) || starts_with(w, "sep") || starts_with(w, "oct") || starts_with(w, "nov") || starts_with(
        w,
        "dec",
    )
}

fn find_unit(w: &str, short: bool) -> (r: Option<Unit>)
    requires
        short == is_short(w@),
    ensures
        r == unit_of(w@),
{
    if short {
        if starts_with(w, "d") {
            Some(Unit::Day)
        } else if starts_with(w, "w") {
            Some(Unit::Week)
        } else if starts_with(w, "y") {
            Some(Unit::Year)
        } else if starts_with(w, "s") || starts_with(w, "m") || starts_with(w, "h") {
            Some(Unit::Short)
        } else {
            None
        }
    } else if starts_with(w, "day") {
        Some(Unit::Day)
    } else if starts_with(w, "wee") {
        Some(Unit::Week)
    } else if starts_with(w, "mon") {
        Some(Unit::Month)
    } else if starts_with(w, "yea") {
        Some(Unit::Year)
    } else if starts_with(w, "sec") || starts_with(w, "min") || starts_with(w, "hou") {
        Some(Unit::Short)
    } else {
        None
    }
}

// ---------------------------------------------------------------------------
// Counting
// ---------------------------------------------------------------------------

/// A number of thirty-two bits, read with a sign.
pub open spec fn signed32(n: nat) -> int {
    if n < 0x8000_0000 {
        n as int
    } else {
        n - 0x1_0000_0000
    }
}

/// Whether the calendar has the moment so many days on, in UTC. On the way back a
/// leap second is passed first.
pub open spec fn days_fit(days: int, now: LocalDateTime) -> bool {
    let passed: int = if days < 0 && now.nanosecond >= 1_000_000_000 {
        1
    } else {
        0
    };
    let second = (now.date.number() + days) * 86_400 + now.seconds_of_day() - now.offset.seconds
        + passed;
    first_number() * 86_400 <= second < (last_number() + 1) * 86_400
}

/// Whether the months from the start of the year fit in thirty-two bits with a sign,
/// with a year to spare where they are negative.
pub open spec fn months_fit(months: int, now: LocalDateTime) -> bool {
    &&& -0x8000_0000 <= months < 0x8000_0000
    &&& -0x8000_0000 + 13 <= now.date.month - 1 + months < 0x8000_0000
}

/// Whether so many units on from now can be counted.
pub open spec fn steps_fit(unit: Unit, k: int, now: LocalDateTime) -> bool {
    match unit {
        Unit::Day => days_fit(k, now),
        Unit::Week => days_fit(7 * k, now),
        Unit::Month => months_fit(k, now),
        Unit::Year => months_fit(12 * k, now),
        Unit::Short => true,
    }
}

fn can_count_days(days: i64, now: &LocalDateTime) -> (r: bool)
    requires
        now.valid(),
        -0x4_0000_0000 <= days <= 0x4_0000_0000,
    ensures
        r == days_fit(days as int, *now),
{
    proof {
        lemma_calendar_ends();
        law_number_range(now.date);
    }
    let (first, last): (i64, i64) = (-95_746_129, 95_745_399);
    let passed: i64 = if days < 0 && now.nanosecond >= 1_000_000_000 {
        1
    } else {
        0
    };
    let day: i64 = day_number(now.date) + days;
    let of_day: i64 = now.hour as i64 * 3600 + now.minute as i64 * 60 + now.second as i64;
    let second: i64 = day * 86_400 + of_day - now.offset.seconds as i64 + passed;
    first * 86_400 <= second && second < (last + 1) * 86_400
}

fn can_count_months(months: i64, now: &LocalDateTime) -> (r: bool)
    requires
        now.valid(),
        -0x8_0000_0000 <= months <= 0x8_0000_0000,
    ensures
        r == months_fit(months as int, *now),
{
    let month: i64 = now.date.month as i64 - 1 + months;
    -0x8000_0000 <= months && months < 0x8000_0000 && -0x8000_0000 + 13 <= month && month
        < 0x8000_0000
}

fn can_step(unit: Unit, k: i64, now: &LocalDateTime) -> (r: bool)
    requires
        now.valid(),
        -0x8000_0000 <= k <= 0x8000_0000,
    ensures
        r == steps_fit(unit, k as int, *now),
{
    match unit {
        Unit::Day => can_count_days(k, now),
        Unit::Week => can_count_days(7 * k, now),
        Unit::Month => can_count_months(k, now),
        Unit::Year => can_count_months(12 * k, now),
        Unit::Short => true,
    }
}

// ---------------------------------------------------------------------------
// The time of day
// ---------------------------------------------------------------------------

/// Behind an hour: `am`, or `pm`, which adds twelve to it.
pub open spec fn half_read(word: Seq<char>, hour: nat) -> Reading {
    if word == "pm"@ {
        if hour + 12 <= u32::MAX {
            Reading::Taken
        } else {
            Reading::Breaks
        }
    } else if word == "am"@ {
        Reading::Taken
    } else {
        Reading::Refused
    }
}

/// The seconds of hours and minutes, in thirty-two bits.
pub open spec fn zone_counted(hours: nat, minutes: nat) -> Reading {
    if 60 * (minutes + 60 * hours) <= u32::MAX {
        Reading::Taken
    } else {
        Reading::Breaks
    }
}

/// A time zone behind its sign: hours and minutes, in one number or with a colon
/// between them.
pub open spec fn zone_read(s: Seq<char>, i: int) -> Reading {
    let t = token(s, i);
    if !t.is_count(s) {
        Reading::Refused
    } else if stands_at(s, t.to, ':') {
        let u = token(s, t.to + 1);
        if u.is_count(s) {
            zone_counted(t.value(s), u.value(s))
        } else {
            Reading::Refused
        }
    } else {
        zone_counted(t.value(s) / 100, t.value(s) % 100)
    }
}

/// What stands behind hours, minutes and seconds: nothing, a time zone, `am` or
/// `pm`. A number or a quotation ends the time, whatever follows.
pub open spec fn ending_read(s: Seq<char>, t: Token, hour: nat) -> Reading {
    match t.kind {
        Kind::End => Reading::Taken,
        Kind::Mark => if s[t.from] == '+' || s[t.from] == '-' {
            zone_read(s, t.to)
        } else {
            Reading::Refused
        },
        Kind::Word => if t.text(s) == "Z"@ {
            Reading::Taken
        } else {
            half_read(t.text(s), hour)
        },
        Kind::Number => Reading::Taken,
        Kind::Quoted => Reading::Taken,
    }
}

/// The place after the fraction of a second that starts at `i`: its first character,
/// whichever it is, and the numbers behind it.
pub open spec fn after_fraction(s: Seq<char>, i: int) -> int {
    if i < s.len() {
        after_numbers(s, i + 1)
    } else {
        i
    }
}

/// Whether all characters from `i` to `j` are digits.
pub open spec fn all_digits(s: Seq<char>, i: int, j: int) -> bool {
    forall|k: int| i <= k < j ==> ascii_digit(#[trigger] s[k])
}

/// The fraction of a second from `i` on: digits, or an exponent. A NUL before it
/// does not count.
pub open spec fn fraction_read(s: Seq<char>, i: int) -> Reading {
    let j = after_fraction(s, i);
    let start = if stands_at(s, i, '\0') {
        i + 1
    } else {
        i
    };
    if start >= j {
        Reading::Refused
    } else if all_digits(s, start, j) {
        Reading::Taken
    } else if (s[i] == 'e' || s[i] == 'E') && i + 1 < j && all_digits(s, i + 1, j) {
        Reading::Taken
    } else {
        Reading::Breaks
    }
}

/// What stands behind the seconds: a fraction where there is a point, and the end of
/// the time.
pub open spec fn seconds_ended(s: Seq<char>, i: int, hour: nat) -> Reading {
    let t = token(s, i);
    if t.is_mark(s, '.') {
        match fraction_read(s, t.to) {
            Reading::Taken => ending_read(s, token(s, after_fraction(s, t.to)), hour),
            other => other,
        }
    } else {
        ending_read(s, t, hour)
    }
}

/// The minutes behind an hour and a colon, and what follows them.
pub open spec fn formal_read(s: Seq<char>, i: int, hour: nat) -> Reading {
    let m = token(s, i);
    let t = token(s, m.to);
    if !m.is_count(s) {
        Reading::Refused
    } else if t.kind != Kind::Mark {
        ending_read(s, t, hour)
    } else if s[t.from] != ':' {
        Reading::Refused
    } else {
        let seconds = token(s, t.to);
        if seconds.is_count(s) {
            seconds_ended(s, seconds.to, hour)
        } else {
            Reading::Refused
        }
    }
}

/// The minutes behind an hour and a point, and `am` or `pm`.
pub open spec fn informal_read(s: Seq<char>, i: int, hour: nat) -> Reading {
    let m = token(s, i);
    let t = token(s, m.to);
    if !m.is_count(s) {
        Reading::Refused
    } else {
        match t.kind {
            Kind::End => Reading::Taken,
            Kind::Word => half_read(t.text(s), hour),
            _ => Reading::Refused,
        }
    }
}

/// The rest of a time whose hour was read: a colon or a point, and what belongs to
/// it.
pub open spec fn minutes_read(s: Seq<char>, i: int, hour: nat) -> Reading {
    let t = token(s, i);
    if t.is_mark(s, ':') {
        formal_read(s, t.to, hour)
    } else if t.is_mark(s, '.') {
        informal_read(s, t.to, hour)
    } else {
        Reading::Refused
    }
}

/// A time of day behind a date, or nothing.
pub open spec fn time_read(s: Seq<char>, i: int) -> Reading {
    let t = token(
        s,
        if stands_at(s, i, 'T') {
            i + 1
        } else {
            i
        },
    );
    if t.kind == Kind::End {
        Reading::Taken
    } else if !t.is_count(s) {
        Reading::Refused
    } else {
        let u = token(s, t.to);
        if u.kind == Kind::Word {
            half_read(u.text(s), t.value(s))
        } else {
            minutes_read(s, t.to, t.value(s))
        }
    }
}

fn read_half(v: &Vec<char>, t: &Lexeme, hour: u64) -> (r: Reading)
    requires
        t.from <= t.to <= v@.len(),
        t.kind == Kind::Word,
        hour <= u32::MAX,
    ensures
        r == half_read(t@.text(v@), hour as nat),
{
    if is_word(v, t, "pm") {
        if hour + 12 <= 0xffff_ffff {
            Reading::Taken
        } else {
            Reading::Breaks
        }
    } else if is_word(v, t, "am") {
        Reading::Taken
    } else {
        Reading::Refused
    }
}

fn count_zone(hours: u64, minutes: u64) -> (r: Reading)
    requires
        hours <= u32::MAX,
        minutes <= u32::MAX,
    ensures
        r == zone_counted(hours as nat, minutes as nat),
{
    if 60 * (minutes + 60 * hours) <= 0xffff_ffff {
        Reading::Taken
    } else {
        Reading::Breaks
    }
}

fn read_zone(v: &Vec<char>, i: usize) -> (r: Reading)
    requires
        i <= v@.len() < u32::MAX,
    ensures
        r == zone_read(v@, i as int),
{
    let t = next_token(v, i);
    let n: u64 = match count_of(v, &t) {
        Some(n) => n,
        None => return Reading::Refused,
    };
    if stands(v, t.to, ':') {
        let u = next_token(v, t.to + 1);
        match count_of(v, &u) {
            Some(m) => count_zone(n, m),
            None => Reading::Refused,
        }
    } else {
        count_zone(n / 100, n % 100)
    }
}

fn read_ending(v: &Vec<char>, t: &Lexeme, hour: u64) -> (r: Reading)
    requires
        t.from <= t.to <= v@.len() < u32::MAX,
        t.kind != Kind::End ==> t.from < t.to,
        hour <= u32::MAX,
    ensures
        r == ending_read(v@, t@, hour as nat),
{
    match t.kind {
        Kind::End => Reading::Taken,
        Kind::Mark => if v[t.from] == '+' || v[t.from] == '-' {
            read_zone(v, t.to)
        } else {
            Reading::Refused
        },
        Kind::Word => if is_word(v, t, "Z") {
            Reading::Taken
        } else {
            read_half(v, t, hour)
        },
        Kind::Number => Reading::Taken,
        Kind::Quoted => Reading::Taken,
    }
}

fn are_digits(v: &Vec<char>, i: usize, j: usize) -> (r: bool)
    requires
        i <= j <= v@.len(),
    ensures
        r == all_digits(v@, i as int, j as int),
{
    let mut k: usize = i;
    while k < j
        invariant
            i <= k <= j <= v@.len(),
            all_digits(v@, i as int, k as int),
        decreases j - k,
    {
        if !is_ascii_digit(v[k]) {
            assert(!ascii_digit(v@[k as int]));
            return false;
        }
        k = k + 1;
    }
    true
}

/// How the fraction from `i` on is read, and where it ends.
fn read_fraction(v: &Vec<char>, i: usize) -> (r: (Reading, usize))
    requires
        i <= v@.len() < u32::MAX,
    ensures
        r.0 == fraction_read(v@, i as int),
        r.1 == after_fraction(v@, i as int),
        i <= r.1 <= v@.len(),
{
    if i >= v.len() {
        return (Reading::Refused, i);
    }
    let j = past_numbers(v, i + 1);
    let start: usize = if v[i] == '\0' {
        i + 1
    } else {
        i
    };
    let reading = if start >= j {
        Reading::Refused
    } else if are_digits(v, start, j) {
        Reading::Taken
    } else if (v[i] == 'e' || v[i] == 'E') && i + 1 < j && are_digits(v, i + 1, j) {
        Reading::Taken
    } else {
        Reading::Breaks
    };
    (reading, j)
}

fn end_seconds(v: &Vec<char>, i: usize, hour: u64) -> (r: Reading)
    requires
        i <= v@.len() < u32::MAX,
        hour <= u32::MAX,
    ensures
        r == seconds_ended(v@, i as int, hour as nat),
{
    let t = next_token(v, i);
    if is_mark(v, &t, '.') {
        let (fraction, end) = read_fraction(v, t.to);
        match fraction {
            Reading::Taken => {
                let u = next_token(v, end);
                read_ending(v, &u, hour)
            },
            other => other,
        }
    } else {
        read_ending(v, &t, hour)
    }
}

fn read_formal(v: &Vec<char>, i: usize, hour: u64) -> (r: Reading)
    requires
        i <= v@.len() < u32::MAX,
        hour <= u32::MAX,
    ensures
        r == formal_read(v@, i as int, hour as nat),
{
    let m = next_token(v, i);
    if count_of(v, &m).is_none() {
        return Reading::Refused;
    }
    let t = next_token(v, m.to);
    match t.kind {
        Kind::Mark => {
            if v[t.from] != ':' {
                return Reading::Refused;
            }
            let seconds = next_token(v, t.to);
            match count_of(v, &seconds) {
                Some(_) => end_seconds(v, seconds.to, hour),
                None => Reading::Refused,
            }
        },
        _ => read_ending(v, &t, hour),
    }
}

fn read_informal(v: &Vec<char>, i: usize, hour: u64) -> (r: Reading)
    requires
        i <= v@.len() < u32::MAX,
        hour <= u32::MAX,
    ensures
        r == informal_read(v@, i as int, hour as nat),
{
    let m = next_token(v, i);
    if count_of(v, &m).is_none() {
        return Reading::Refused;
    }
    let t = next_token(v, m.to);
    match t.kind {
        Kind::End => Reading::Taken,
        Kind::Word => read_half(v, &t, hour),
        _ => Reading::Refused,
    }
}

fn read_minutes(v: &Vec<char>, i: usize, hour: u64) -> (r: Reading)
    requires
        i <= v@.len() < u32::MAX,
        hour <= u32::MAX,
    ensures
        r == minutes_read(v@, i as int, hour as nat),
{
    let t = next_token(v, i);
    if is_mark(v, &t, ':') {
        read_formal(v, t.to, hour)
    } else if is_mark(v, &t, '.') {
        read_informal(v, t.to, hour)
    } else {
        Reading::Refused
    }
}

fn read_time(v: &Vec<char>, i: usize) -> (r: Reading)
    requires
        i <= v@.len() < u32::MAX,
    ensures
        r == time_read(v@, i as int),
{
    let from: usize = if stands(v, i, 'T') {
        i + 1
    } else {
        i
    };
    let t = next_token(v, from);
    let ended = match t.kind {
        Kind::End => true,
        _ => false,
    };
    if ended {
        return Reading::Taken;
    }
    let hour: u64 = match count_of(v, &t) {
        Some(hour) => hour,
        None => return Reading::Refused,
    };
    let u = next_token(v, t.to);
    match u.kind {
        Kind::Word => read_half(v, &u, hour),
        _ => read_minutes(v, t.to, hour),
    }
}

// ---------------------------------------------------------------------------
// The date
// ---------------------------------------------------------------------------

/// So many units on, once the time of day is read.
pub open spec fn stepped(time: Reading, unit: Unit, k: int, now: LocalDateTime) -> Reading {
    if time == Reading::Taken && !steps_fit(unit, k, now) {
        Reading::Breaks
    } else {
        time
    }
}

/// So many units back; the number changes its sign first.
pub open spec fn stepped_back(time: Reading, unit: Unit, k: int, now: LocalDateTime) -> Reading {
    if k == -0x8000_0000 {
        Reading::Breaks
    } else {
        stepped(time, unit, -k, now)
    }
}

/// What follows a number of units: `ago`, or the hour of a time of day. Any other
/// token but a word does not count.
pub open spec fn units_read(
    s: Seq<char>,
    i: int,
    unit: Unit,
    n: nat,
    minus: bool,
    now: LocalDateTime,
) -> Reading {
    let k = signed32(n);
    let t = token(s, i);
    if minus {
        stepped_back(time_read(s, i), unit, k, now)
    } else if t.kind == Kind::Word {
        if t.text(s) == "ago"@ {
            stepped_back(time_read(s, t.to), unit, k, now)
        } else {
            Reading::Refused
        }
    } else if t.kind == Kind::Number && t.value(s) <= i64::MAX {
        stepped(minutes_read(s, t.to, t.value(s) % 0x1_0000_0000), unit, k, now)
    } else {
        stepped(time_read(s, t.to), unit, k, now)
    }
}

/// Two more numbers of a date with dashes.
pub open spec fn dashes_read(s: Seq<char>, i: int) -> Reading {
    let month = token(s, i);
    let dash = token(s, month.to);
    let day = token(s, dash.to);
    if month.is_count(s) && dash.is_mark(s, '-') && day.is_count(s) {
        time_read(s, day.to)
    } else {
        Reading::Refused
    }
}

/// One or two more numbers of a date with slashes.
pub open spec fn slashes_read(s: Seq<char>, i: int) -> Reading {
    let second = token(s, i);
    let year = token(s, second.to + 1);
    if !second.is_count(s) {
        Reading::Refused
    } else if !stands_at(s, second.to, '/') {
        time_read(s, second.to)
    } else if year.is_count(s) {
        time_read(s, year.to)
    } else {
        Reading::Refused
    }
}

/// The word behind a number that a text starts with: a month, a unit, `am` or `pm`.
/// Behind a month one more token is read, a year or not.
pub open spec fn word_behind_read(
    s: Seq<char>,
    t: Token,
    n: nat,
    minus: bool,
    now: LocalDateTime,
) -> Reading {
    let w = small(t.text(s));
    if is_short(w) {
        if !cuts_at_one(w) {
            Reading::Breaks
        } else if unit_of(w) is Some {
            units_read(s, t.to, unit_of(w)->0, n, minus, now)
        } else {
            half_read(w, n)
        }
    } else if !cuts_at_three(w) {
        Reading::Breaks
    } else if names_month(w) {
        time_read(s, token(s, t.to).to)
    } else if unit_of(w) is Some {
        units_read(s, t.to, unit_of(w)->0, n, minus, now)
    } else {
        half_read(w, n)
    }
}

/// What follows a number that a text starts with.
pub open spec fn number_read(
    s: Seq<char>,
    t: Token,
    minus: bool,
    now: LocalDateTime,
) -> Reading {
    let n = t.value(s);
    let u = token(s, t.to);
    if !t.is_count(s) {
        Reading::Refused
    } else {
        match u.kind {
            Kind::End => time_read(s, u.to),
            Kind::Word => word_behind_read(s, u, n, minus, now),
            Kind::Mark => if s[u.from] == '-' {
                dashes_read(s, u.to)
            } else if s[u.from] == '/' {
                slashes_read(s, u.to)
            } else {
                minutes_read(s, t.to, n)
            },
            _ => Reading::Refused,
        }
    }
}

/// What follows the name of a month: a day and perhaps a year, or one token that
/// does not count.
pub open spec fn month_read(s: Seq<char>, i: int) -> Reading {
    let t = token(s, i);
    let year = token(s, t.to + 1);
    if t.kind != Kind::Number || t.value(s) > i64::MAX {
        time_read(s, t.to)
    } else if t.value(s) > u32::MAX {
        Reading::Refused
    } else if !stands_at(s, t.to, ',') {
        time_read(s, t.to)
    } else if year.is_count(s) {
        time_read(s, year.to)
    } else {
        Reading::Refused
    }
}

/// A word that a text starts with: the name of a week day or of a month.
pub open spec fn name_read(s: Seq<char>, t: Token) -> Reading {
    let w = small(t.text(s));
    if !is_short(w) && !cuts_at_three(w) {
        Reading::Breaks
    } else if names_week_day(w) {
        time_read(s, t.to)
    } else if names_month(w) {
        month_read(s, t.to)
    } else {
        Reading::Refused
    }
}

/// What a text starts with, once a sign and `next` or `last` are passed.
pub open spec fn body_read(s: Seq<char>, t: Token, minus: bool, now: LocalDateTime) -> Reading {
    match t.kind {
        Kind::Word => name_read(s, t),
        Kind::Number => number_read(s, t, minus, now),
        _ => Reading::Refused,
    }
}

/// Whether a word stands for a day by itself.
pub open spec fn names_near_day(word: Seq<char>) -> bool {
    word == "now"@ || word == "today"@ || word == "yesterday"@ || word == "tomorrow"@
}

/// A text behind its sign.
pub open spec fn unsigned_read(s: Seq<char>, t: Token, minus: bool, now: LocalDateTime) -> Reading {
    if t.kind == Kind::Word && names_near_day(t.text(s)) {
        time_read(s, t.to)
    } else if t.is_word(s, "next"@) || t.is_word(s, "last"@) {
        body_read(s, token(s, t.to), minus, now)
    } else {
        body_read(s, t, minus, now)
    }
}

/// A whole text.
#[verifier::opaque]
pub open spec fn date_read(s: Seq<char>, now: LocalDateTime) -> Reading {
    let t = token(s, 0);
    if t.is_mark(s, '-') {
        unsigned_read(s, token(s, t.to), true, now)
    } else {
        unsigned_read(s, t, false, now)
    }
}

fn step(time: Reading, unit: Unit, k: i64, now: &LocalDateTime) -> (r: Reading)
    requires
        now.valid(),
        -0x8000_0000 <= k <= 0x8000_0000,
    ensures
        r == stepped(time, unit, k as int, *now),
{
    match time {
        Reading::Taken => if can_step(unit, k, now) {
            Reading::Taken
        } else {
            Reading::Breaks
        },
        other => other,
    }
}

fn step_back(time: Reading, unit: Unit, k: i64, now: &LocalDateTime) -> (r: Reading)
    requires
        now.valid(),
        -0x8000_0000 <= k < 0x8000_0000,
    ensures
        r == stepped_back(time, unit, k as int, *now),
{
    if k == -0x8000_0000 {
        Reading::Breaks
    } else {
        step(time, unit, -k, now)
    }
}

fn read_units(
    v: &Vec<char>,
    i: usize,
    unit: Unit,
    n: u64,
    minus: bool,
    now: &LocalDateTime,
) -> (r: Reading)
    requires
        now.valid(),
        i <= v@.len() < u32::MAX,
        n <= u32::MAX,
    ensures
        r == units_read(v@, i as int, unit, n as nat, minus, *now),
{
    let k: i64 = if n < 0x8000_0000 {
        n as i64
    } else {
        n as i64 - 0x1_0000_0000
    };
    if minus {
        return step_back(read_time(v, i), unit, k, now);
    }
    let t = next_token(v, i);
    match t.kind {
        Kind::Word => if is_word(v, &t, "ago") {
            step_back(read_time(v, t.to), unit, k, now)
        } else {
            Reading::Refused
        },
        Kind::Number => match value_between(v, t.from, t.to) {
            Some(hour) => step(read_minutes(v, t.to, hour % 0x1_0000_0000), unit, k, now),
            None => step(read_time(v, t.to), unit, k, now),
        },
        _ => step(read_time(v, t.to), unit, k, now),
    }
}

fn read_dashes(v: &Vec<char>, i: usize) -> (r: Reading)
    requires
        i <= v@.len() < u32::MAX,
    ensures
        r == dashes_read(v@, i as int),
{
    let month = next_token(v, i);
    let dash = next_token(v, month.to);
    let day = next_token(v, dash.to);
    if count_of(v, &month).is_some() && is_mark(v, &dash, '-') && count_of(v, &day).is_some() {
        read_time(v, day.to)
    } else {
        Reading::Refused
    }
}

fn read_slashes(v: &Vec<char>, i: usize) -> (r: Reading)
    requires
        i <= v@.len() < u32::MAX,
    ensures
        r == slashes_read(v@, i as int),
{
    let second = next_token(v, i);
    if count_of(v, &second).is_none() {
        return Reading::Refused;
    }
    if !stands(v, second.to, '/') {
        return read_time(v, second.to);
    }
    let year = next_token(v, second.to + 1);
    match count_of(v, &year) {
        Some(_) => read_time(v, year.to),
        None => Reading::Refused,
    }
}

fn read_word_behind(v: &Vec<char>, t: &Lexeme, n: u64, minus: bool, now: &LocalDateTime) -> (r:
    Reading)
    requires
        now.valid(),
        t.from <= t.to <= v@.len() < u32::MAX,
        t.kind == Kind::Word,
        n <= u32::MAX,
    ensures
        r == word_behind_read(v@, t@, n as nat, minus, *now),
{
    let word = small_word(v, t);
    let w = chars_of(word.as_str());
    let short = is_short_word(&w);
    if short && !can_cut_at_one(&w) {
        return Reading::Breaks;
    }
    if !short && !can_cut_at_three(&w) {
        return Reading::Breaks;
    }
    if !short && is_month(word.as_str()) {
        let u = next_token(v, t.to);
        return read_time(v, u.to);
    }
    match find_unit(word.as_str(), short) {
        Some(unit) => read_units(v, t.to, unit, n, minus, now),
        None => {
            if same_text(word.as_str(), "pm") {
                if n + 12 <= 0xffff_ffff {
                    Reading::Taken
                } else {
                    Reading::Breaks
                }
            } else if same_text(word.as_str(), "am") {
                Reading::Taken
            } else {
                Reading::Refused
            }
        },
    }
}

fn read_number(v: &Vec<char>, t: &Lexeme, minus: bool, now: &LocalDateTime) -> (r: Reading)
    requires
        now.valid(),
        t.from <= t.to <= v@.len() < u32::MAX,
        t.kind == Kind::Number,
        forall|m: int| t.from <= m < t.to ==> ascii_digit(#[trigger] v@[m]),
    ensures
        r == number_read(v@, t@, minus, *now),
{
    let n: u64 = match count_of(v, t) {
        Some(n) => n,
        None => return Reading::Refused,
    };
    let u = next_token(v, t.to);
    match u.kind {
        Kind::End => read_time(v, u.to),
        Kind::Word => read_word_behind(v, &u, n, minus, now),
        Kind::Mark => if v[u.from] == '-' {
            read_dashes(v, u.to)
        } else if v[u.from] == '/' {
            read_slashes(v, u.to)
        } else {
            read_minutes(v, t.to, n)
        },
        _ => Reading::Refused,
    }
}

fn read_month(v: &Vec<char>, i: usize) -> (r: Reading)
    requires
        i <= v@.len() < u32::MAX,
    ensures
        r == month_read(v@, i as int),
{
    let t = next_token(v, i);
    match t.kind {
        Kind::Number => {
            let n: u64 = match value_between(v, t.from, t.to) {
                Some(n) => n,
                None => return read_time(v, t.to),
            };
            if n > 0xffff_ffff {
                return Reading::Refused;
            }
            if !stands(v, t.to, ',') {
                return read_time(v, t.to);
            }
            let year = next_token(v, t.to + 1);
            match count_of(v, &year) {
                Some(_) => read_time(v, year.to),
                None => Reading::Refused,
            }
        },
        _ => read_time(v, t.to),
    }
}

fn read_name(v: &Vec<char>, t: &Lexeme) -> (r: Reading)
    requires
        t.from <= t.to <= v@.len() < u32::MAX,
    ensures
        r == name_read(v@, t@),
{
    let word = small_word(v, t);
    let w = chars_of(word.as_str());
    if !is_short_word(&w) && !can_cut_at_three(&w) {
        Reading::Breaks
    } else if is_week_day(word.as_str()) {
        read_time(v, t.to)
    } else if is_month(word.as_str()) {
        read_month(v, t.to)
    } else {
        Reading::Refused
    }
}

fn read_body(v: &Vec<char>, t: &Lexeme, minus: bool, now: &LocalDateTime) -> (r: Reading)
    requires
        now.valid(),
        t.from <= t.to <= v@.len() < u32::MAX,
        t.kind == Kind::Number ==> forall|m: int| t.from <= m < t.to ==> ascii_digit(#[trigger] v@[m]),
    ensures
        r == body_read(v@, t@, minus, *now),
{
    match t.kind {
        Kind::Word => read_name(v, t),
        Kind::Number => read_number(v, t, minus, now),
        _ => Reading::Refused,
    }
}

fn is_near_day(v: &Vec<char>, t: &Lexeme) -> (r: bool)
    requires
        t.from <= t.to <= v@.len(),
    ensures
        r == (t@.kind == Kind::Word && names_near_day(t@.text(v@))),
{
    is_word(v, t, "now") || is_word(v, t, "today") || is_word(v, t, "yesterday") || is_word(
        v,
        t,
        "tomorrow",
    )
}

fn read_unsigned(v: &Vec<char>, t: &Lexeme, minus: bool, now: &LocalDateTime) -> (r: Reading)
    requires
        now.valid(),
        t.from <= t.to <= v@.len() < u32::MAX,
        t.kind == Kind::Number ==> forall|m: int| t.from <= m < t.to ==> ascii_digit(#[trigger] v@[m]),
    ensures
        r == unsigned_read(v@, t@, minus, *now),
{
    if is_near_day(v, t) {
        read_time(v, t.to)
    } else if is_word(v, t, "next") || is_word(v, t, "last") {
        let u = next_token(v, t.to);
        read_body(v, &u, minus, now)
    } else {
        read_body(v, t, minus, now)
    }
}

/// Whether the English parser returns on a text.
pub fn is_plain_english(text: &str, now: &LocalDateTime) -> (r: bool)
    requires
        now.valid(),
    ensures
        r == plain_english(text@, *now),
{
    let v = chars_of(text);
    if v.len() as u64 >= 0xffff_ffff {
        return false;
    }
    proof {
        reveal(date_read);
    }
    let t = next_token(&v, 0);
    let reading = if is_mark(&v, &t, '-') {
        let u = next_token(&v, t.to);
        read_unsigned(&v, &u, true, now)
    } else {
        read_unsigned(&v, &t, false, now)
    };
    match reading {
        Reading::Breaks => false,
        _ => true,
    }
}

/// `now`, `today`, `yesterday` and `tomorrow` are read at every moment.
pub proof fn law_near_days_plain(word: Seq<char>, now: LocalDateTime)
    requires
        names_near_day(word),
    ensures
        plain_english(word, now),
{
    reveal_strlit("now");
    reveal_strlit("today");
    reveal_strlit("yesterday");
    reveal_strlit("tomorrow");
    let len = word.len() as int;
    lemma_one_word(word, 1);
    assert(token(word, 0) == Token { kind: Kind::Word, from: 0, to: len });
    assert(word.subrange(0, len) =~= word);
    assert(token(word, len) == Token { kind: Kind::End, from: len, to: len });
    assert(time_read(word, len) == Reading::Taken);
    reveal(date_read);
}

proof fn lemma_one_word(s: Seq<char>, i: int)
    requires
        0 <= i <= s.len(),
        forall|k: int| 0 <= k < s.len() ==> ascii_letter(#[trigger] s[k]),
    ensures
        after_word(s, i) == s.len(),
    decreases s.len() - i,
{
    if i < s.len() {
        assert(ascii_letter(s[i]));
        lemma_one_word(s, i + 1);
    }
}

// ---------------------------------------------------------------------------
// Which texts are plain
// ---------------------------------------------------------------------------

/// Whether a text is made of ASCII characters, with at most six digits in a row, and
/// has no colon or a digit behind each point.
pub open spec fn everyday(s: Seq<char>) -> bool {
    &&& forall|i: int| 0 <= i < s.len() ==> (#[trigger] s[i] as u32) < 0x80
    &&& (forall|i: int| 0 <= i < s.len() ==> #[trigger] s[i] != ':') || (forall|i: int|
        0 <= i < s.len() && #[trigger] s[i] == '.' ==> i + 1 < s.len() && ascii_digit(s[i + 1]))
    &&& forall|i: int|
        0 <= i <= s.len() - 7 ==> !(ascii_digit(#[trigger] s[i]) && ascii_digit(s[i + 1])
            && ascii_digit(s[i + 2]) && ascii_digit(s[i + 3]) && ascii_digit(s[i + 4])
            && ascii_digit(s[i + 5]) && ascii_digit(s[i + 6]))
}

proof fn lemma_after_spaces(s: Seq<char>, i: int)
    requires
        0 <= i <= s.len(),
    ensures
        i <= after_spaces(s, i) <= s.len(),
    decreases s.len() - i,
{
    if i < s.len() && is_space(s[i]) {
        lemma_after_spaces(s, i + 1);
    }
}

proof fn lemma_after_word(s: Seq<char>, i: int)
    requires
        0 <= i <= s.len(),
    ensures
        i <= after_word(s, i) <= s.len(),
    decreases s.len() - i,
{
    if i < s.len() && word_char(s[i]) {
        lemma_after_word(s, i + 1);
    }
}

proof fn lemma_after_digits(s: Seq<char>, i: int)
    requires
        0 <= i <= s.len(),
    ensures
        i <= after_digits(s, i) <= s.len(),
        forall|k: int| i <= k < after_digits(s, i) ==> ascii_digit(#[trigger] s[k]),
    decreases s.len() - i,
{
    if i < s.len() && ascii_digit(s[i]) {
        lemma_after_digits(s, i + 1);
    }
}

/// A number of at most six digits is below a million.
proof fn lemma_small_value(digits: Seq<char>)
    requires
        digits.len() <= 6,
        forall|i: int| 0 <= i < digits.len() ==> ascii_digit(#[trigger] digits[i]),
    ensures
        number_value(digits) <= 999_999,
        digits.len() <= 5 ==> number_value(digits) <= 99_999,
        digits.len() <= 4 ==> number_value(digits) <= 9999,
        digits.len() <= 3 ==> number_value(digits) <= 999,
        digits.len() <= 2 ==> number_value(digits) <= 99,
        digits.len() <= 1 ==> number_value(digits) <= 9,
        digits.len() == 0 ==> number_value(digits) == 0,
    decreases digits.len(),
{
    if digits.len() > 0 {
        lemma_small_value(digits.drop_last());
        assert(ascii_digit(digits[digits.len() - 1]));
    }
}

/// The numbers of an everyday text are below a million, and its tokens stand in it.
proof fn lemma_everyday_token(s: Seq<char>, i: int)
    requires
        everyday(s),
        0 <= i <= s.len(),
    ensures
        0 <= token(s, i).from <= token(s, i).to <= s.len(),
        token(s, i).kind != Kind::End ==> token(s, i).from < s.len(),
        token(s, i).kind == Kind::Number ==> token(s, i).value(s) <= 999_999,
{
    let a = after_spaces(s, i);
    lemma_after_spaces(s, i);
    if a < s.len() {
        lemma_after_digits(s, a);
        lemma_after_word(s, a + 1);
        if a + 2 <= s.len() {
            lemma_quote_end(s, a + 2, s[a]);
        }
        lemma_quote_within(s, a + 2, s[a]);
        if ascii_digit(s[a]) {
            let b = after_digits(s, a);
            if b - a >= 7 {
                assert(ascii_digit(s[a]) && ascii_digit(s[a + 1]) && ascii_digit(s[a + 2])
                    && ascii_digit(s[a + 3]) && ascii_digit(s[a + 4]) && ascii_digit(s[a + 5])
                    && ascii_digit(s[a + 6]));
            }
            let digits = s.subrange(a, b);
            assert forall|k: int| 0 <= k < digits.len() implies ascii_digit(#[trigger] digits[k]) by {
                assert(ascii_digit(s[a + k]));
            }
            lemma_small_value(digits);
        }
    }
}

proof fn lemma_quote_within(s: Seq<char>, i: int, quote: char)
    requires
        0 <= i <= s.len() + 1,
    ensures
        after_quote(s, i, quote) <= s.len(),
        i <= s.len() ==> i <= after_quote(s, i, quote),
    decreases s.len() - i,
{
    if i < s.len() && s[i] != quote {
        lemma_quote_within(s, i + 1, quote);
    }
}

proof fn lemma_everyday_zone(s: Seq<char>, i: int)
    requires
        everyday(s),
        0 <= i <= s.len(),
    ensures
        zone_read(s, i) != Reading::Breaks,
{
    let t = token(s, i);
    lemma_everyday_token(s, i);
    if t.to < s.len() {
        lemma_everyday_token(s, t.to + 1);
    }
}

proof fn lemma_everyday_ending(s: Seq<char>, i: int, hour: nat)
    requires
        everyday(s),
        0 <= i <= s.len(),
        hour <= 999_999,
    ensures
        ending_read(s, token(s, i), hour) != Reading::Breaks,
{
    lemma_everyday_token(s, i);
    lemma_everyday_zone(s, token(s, i).to);
}

proof fn lemma_everyday_minutes(s: Seq<char>, i: int, hour: nat)
    requires
        everyday(s),
        0 <= i <= s.len(),
        hour <= 999_999,
    ensures
        minutes_read(s, i, hour) != Reading::Breaks,
{
    let t = token(s, i);
    lemma_everyday_token(s, i);
    let m = token(s, t.to);
    lemma_everyday_token(s, t.to);
    let u = token(s, m.to);
    lemma_everyday_token(s, m.to);
    lemma_everyday_ending(s, m.to, hour);
    let seconds = token(s, u.to);
    lemma_everyday_token(s, u.to);
    let point = token(s, seconds.to);
    lemma_everyday_token(s, seconds.to);
    lemma_everyday_ending(s, seconds.to, hour);
    if t.is_mark(s, ':') && point.is_mark(s, '.') {
        assert(s[t.from] == ':');
        assert(s[point.from] == '.');
        assert(point.to == point.from + 1);
        let j = after_fraction(s, point.to);
        lemma_after_numbers(s, point.to + 1);
        assert(all_digits(s, point.to, j)) by {
            assert forall|k: int| point.to <= k < j implies ascii_digit(#[trigger] s[k]) by {
                assert((s[k] as u32) < 0x80);
                if k > point.to {
                    assert(number_char(s[k]));
                }
            }
        }
        lemma_everyday_ending(s, j, hour);
    }
}

proof fn lemma_after_numbers(s: Seq<char>, i: int)
    requires
        0 <= i <= s.len(),
    ensures
        i <= after_numbers(s, i) <= s.len(),
        forall|k: int| i <= k < after_numbers(s, i) ==> number_char(#[trigger] s[k]),
    decreases s.len() - i,
{
    if i < s.len() && number_char(s[i]) {
        lemma_after_numbers(s, i + 1);
    }
}

proof fn lemma_everyday_time(s: Seq<char>, i: int)
    requires
        everyday(s),
        0 <= i <= s.len(),
    ensures
        time_read(s, i) != Reading::Breaks,
{
    let from = if stands_at(s, i, 'T') {
        i + 1
    } else {
        i
    };
    lemma_everyday_token(s, from);
    let t = token(s, from);
    lemma_everyday_token(s, t.to);
    if t.is_count(s) {
        lemma_everyday_minutes(s, t.to, t.value(s));
    }
}

/// A word of ASCII characters can be cut anywhere.
proof fn lemma_everyday_word(s: Seq<char>, i: int)
    requires
        everyday(s),
        0 <= i <= s.len(),
        token(s, i).kind == Kind::Word,
    ensures
        ({
            let w = small(token(s, i).text(s));
            &&& w.len() > 0
            &&& is_short(w) ==> cuts_at_one(w)
            &&& !is_short(w) ==> cuts_at_three(w)
        }),
{
    let t = token(s, i);
    lemma_everyday_token(s, i);
    lemma_after_spaces(s, i);
    lemma_after_word(s, t.from + 1);
    let word = t.text(s);
    assert forall|k: int| 0 <= k < word.len() implies (#[trigger] word[k] as u32) < 0x80 by {
        assert(word[k] == s[t.from + k]);
    }
    let w = lowered(word);
    assert(small(word) == w);
    assert forall|k: int| 0 <= k < w.len() implies width(#[trigger] w[k]) == 1 by {
        assert((word[k] as u32) < 0x80);
    }
}

proof fn lemma_everyday_steps(unit: Unit, k: int, now: LocalDateTime)
    requires
        now.valid(),
        -999_999 <= k <= 999_999,
    ensures
        steps_fit(unit, k, now),
{
    lemma_calendar_ends();
    lemma_usual_days(now.date);
}

/// The days of the years that RFC 3339 can write are numbered far from the ends of
/// the calendar.
#[verifier::rlimit(60)]
proof fn lemma_usual_days(date: CalendarDate)
    requires
        date.valid(),
        0 <= date.year <= 9999,
    ensures
        -400 <= date.number() <= 3_700_000,
{
    reveal_with_fuel(days_before_month, 13);
    let y = date.year as int;
    assert(0 <= (y - 1) / 4 + 1 <= 2501);
    assert(0 <= (y - 1) / 100 + 1 <= 101);
    assert(0 <= (y - 1) / 400 + 1 <= 26);
    assert(0 <= days_before_month(y, date.month as int) <= 335);
}

proof fn lemma_everyday_units(
    s: Seq<char>,
    i: int,
    unit: Unit,
    n: nat,
    minus: bool,
    now: LocalDateTime,
)
    requires
        everyday(s),
        0 <= i <= s.len(),
        n <= 999_999,
        now.valid(),
    ensures
        units_read(s, i, unit, n, minus, now) != Reading::Breaks,
{
    let t = token(s, i);
    lemma_everyday_token(s, i);
    lemma_everyday_time(s, i);
    lemma_everyday_time(s, t.to);
    lemma_everyday_steps(unit, n as int, now);
    lemma_everyday_steps(unit, -(n as int), now);
    if t.kind == Kind::Number {
        lemma_everyday_minutes(s, t.to, t.value(s) % 0x1_0000_0000);
    }
}

proof fn lemma_everyday_body(s: Seq<char>, i: int, minus: bool, now: LocalDateTime)
    requires
        everyday(s),
        0 <= i <= s.len(),
        now.valid(),
    ensures
        body_read(s, token(s, i), minus, now) != Reading::Breaks,
{
    let t = token(s, i);
    lemma_everyday_token(s, i);
    lemma_everyday_time(s, t.to);
    if t.kind == Kind::Word {
        lemma_everyday_word(s, i);
        lemma_everyday_month(s, t.to);
    } else if t.kind == Kind::Number {
        let u = token(s, t.to);
        lemma_everyday_token(s, t.to);
        lemma_everyday_time(s, u.to);
        lemma_everyday_minutes(s, t.to, t.value(s));
        lemma_everyday_parts(s, u.to);
        if u.kind == Kind::Word {
            lemma_everyday_word(s, t.to);
            lemma_everyday_token(s, u.to);
            lemma_everyday_time(s, token(s, u.to).to);
            let w = small(u.text(s));
            if unit_of(w) is Some {
                lemma_everyday_units(s, u.to, unit_of(w)->0, t.value(s), minus, now);
            }
        }
    }
}

proof fn lemma_everyday_month(s: Seq<char>, i: int)
    requires
        everyday(s),
        0 <= i <= s.len(),
    ensures
        month_read(s, i) != Reading::Breaks,
{
    let t = token(s, i);
    lemma_everyday_token(s, i);
    lemma_everyday_time(s, t.to);
    if t.to < s.len() {
        lemma_everyday_token(s, t.to + 1);
        lemma_everyday_time(s, token(s, t.to + 1).to);
    }
}

proof fn lemma_everyday_parts(s: Seq<char>, i: int)
    requires
        everyday(s),
        0 <= i <= s.len(),
    ensures
        dashes_read(s, i) != Reading::Breaks,
        slashes_read(s, i) != Reading::Breaks,
{
    let a = token(s, i);
    lemma_everyday_token(s, i);
    lemma_everyday_time(s, a.to);
    let b = token(s, a.to);
    lemma_everyday_token(s, a.to);
    lemma_everyday_token(s, b.to);
    lemma_everyday_time(s, token(s, b.to).to);
    if a.to < s.len() {
        lemma_everyday_token(s, a.to + 1);
        lemma_everyday_time(s, token(s, a.to + 1).to);
    }
}

/// The parser returns on every everyday text, at every moment: words such as `last
/// friday`, amounts such as `3 days ago`, dates such as `May 5, 2020` or `4/3/2018`,
/// and times behind them.
pub proof fn law_everyday_plain(s: Seq<char>, now: LocalDateTime)
    requires
        everyday(s),
        s.len() < u32::MAX,
        now.valid(),
    ensures
        plain_english(s, now),
{
    reveal(date_read);
    let t = token(s, 0);
    lemma_everyday_token(s, 0);
    lemma_everyday_token(s, t.to);
    let u = token(s, t.to);
    lemma_everyday_token(s, u.to);
    lemma_everyday_body(s, 0, false, now);
    lemma_everyday_body(s, t.to, false, now);
    lemma_everyday_body(s, t.to, true, now);
    lemma_everyday_body(s, u.to, true, now);
    lemma_everyday_time(s, t.to);
    lemma_everyday_time(s, u.to);
}

proof fn lemma_digits_end(d: Seq<char>, rest: Seq<char>, i: int)
    requires
        0 <= i <= d.len(),
        forall|k: int| 0 <= k < d.len() ==> ascii_digit(#[trigger] d[k]),
        rest.len() == 0 || !ascii_digit(rest[0]),
    ensures
        after_digits(d + rest, i) == d.len(),
    decreases d.len() - i,
{
    let s = d + rest;
    if i < d.len() {
        assert(s[i] == d[i]);
        lemma_digits_end(d, rest, i + 1);
    } else if rest.len() > 0 {
        assert(s[i] == rest[0]);
    }
}

/// The words that are counted in days, weeks or years.
pub open spec fn counts_far(word: Seq<char>) -> bool {
    word == "days"@ || word == "weeks"@ || word == "years"@
}

proof fn lemma_far_words()
    ensures
        "days"@ =~= seq!['d', 'a', 'y', 's'],
        "weeks"@ =~= seq!['w', 'e', 'e', 'k', 's'],
        "years"@ =~= seq!['y', 'e', 'a', 'r', 's'],
        " "@ =~= seq![' '],
        " ago"@ =~= seq![' ', 'a', 'g', 'o'],
        "ago"@ =~= seq!['a', 'g', 'o'],
{
    reveal_strlit("days");
    reveal_strlit("weeks");
    reveal_strlit("years");
    reveal_strlit(" ");
    reveal_strlit(" ago");
    reveal_strlit("ago");
}

proof fn lemma_far_units()
    ensures
        unit_of("days"@) == Some(Unit::Day),
        unit_of("weeks"@) == Some(Unit::Week),
        unit_of("years"@) == Some(Unit::Year),
        forall|w: Seq<char>| counts_far(w) ==> !(#[trigger] names_month(w)),
        forall|w: Seq<char>|
            counts_far(w) ==> #[trigger] small(w) == w && !is_short(w) && cuts_at_three(w),
{
    lemma_far_words();
    reveal_strlit("day");
    reveal_strlit("wee");
    reveal_strlit("mon");
    reveal_strlit("yea");
    assert("day"@ =~= "days"@.subrange(0, 3));
    assert("wee"@ =~= "weeks"@.subrange(0, 3));
    assert("yea"@ =~= "years"@.subrange(0, 3));
    assert("day"@[0] == 'd' && "wee"@[0] == 'w' && "mon"@[0] == 'm');
    assert forall|w: Seq<char>| counts_far(w) implies !(#[trigger] names_month(w)) by {
        reveal_strlit("jan");
        reveal_strlit("feb");
        reveal_strlit("mar");
        reveal_strlit("apr");
        reveal_strlit("may");
        reveal_strlit("jun");
        reveal_strlit("jul");
        reveal_strlit("aug");
        reveal_strlit("sep");
        reveal_strlit("oct");
        reveal_strlit("nov");
        reveal_strlit("dec");
        assert(w[0] == 'd' || w[0] == 'w' || w[0] == 'y');
        assert(w[0] == 'd' ==> w[1] == 'a');
        assert("jan"@[0] == 'j' && "feb"@[0] == 'f' && "mar"@[0] == 'm' && "apr"@[0] == 'a'
            && "may"@[0] == 'm' && "jun"@[0] == 'j' && "jul"@[0] == 'j' && "aug"@[0] == 'a'
            && "sep"@[0] == 's' && "oct"@[0] == 'o' && "nov"@[0] == 'n' && "dec"@[0] == 'd');
        assert("dec"@[1] == 'e');
    }
    assert forall|w: Seq<char>| counts_far(w) implies #[trigger] small(w) == w && !is_short(w)
        && cuts_at_three(w) by {
        assert(forall|k: int| 0 <= k < w.len() ==> 'a' <= #[trigger] w[k] <= 'z');
        assert(lowered(w) =~= w);
        assert(w.len() >= 4);
        assert(width(w[0]) == 1 && width(w[1]) == 1 && width(w[2]) == 1);
    }
}

/// The tokens of an amount.
proof fn lemma_far_tokens(digits: Seq<char>, word: Seq<char>)
    requires
        digits.len() > 0,
        forall|k: int| 0 <= k < digits.len() ==> ascii_digit(#[trigger] digits[k]),
        counts_far(word),
    ensures
        ({
            let s = digits + " "@ + word + " ago"@;
            let n = digits.len() as int;
            let m = n + 1 + word.len();
            &&& token(s, 0) == Token { kind: Kind::Number, from: 0, to: n }
            &&& token(s, 0).text(s) == digits
            &&& token(s, n) == Token { kind: Kind::Word, from: n + 1, to: m }
            &&& token(s, n).text(s) == word
            &&& token(s, m) == Token { kind: Kind::Word, from: m + 1, to: m + 4 }
            &&& token(s, m).text(s) == "ago"@
            &&& token(s, m + 4) == Token { kind: Kind::End, from: m + 4, to: m + 4 }
            &&& s.len() == m + 4
        }),
{
    lemma_far_words();
    let s = digits + " "@ + word + " ago"@;
    let n = digits.len() as int;
    let m = n + 1 + word.len();
    assert(s =~= digits + (" "@ + word + " ago"@));
    lemma_digits_end(digits, " "@ + word + " ago"@, 0);
    assert(ascii_digit(digits[0]));
    assert(s[0] == digits[0]);
    assert(after_spaces(s, 0) == 0);
    assert(token(s, 0).text(s) =~= digits);
    assert(s[n] == ' ');
    assert forall|k: int| 0 <= k < word.len() implies #[trigger] s[n + 1 + k] == word[k] by {}
    assert(s[n + 1] == word[0] && s[n + 2] == word[1] && s[n + 3] == word[2] && s[n + 4]
        == word[3]);
    assert(s[m] == ' ');
    assert(s[m + 1] == 'a' && s[m + 2] == 'g' && s[m + 3] == 'o');
    assert(after_spaces(s, n + 1) == n + 1);
    assert(after_spaces(s, n) == n + 1);
    assert(after_word(s, m) == m);
    if word.len() == 5 {
        assert(s[n + 5] == word[4]);
        assert(after_word(s, n + 5) == m);
    }
    assert(after_word(s, n + 4) == m);
    assert(after_word(s, n + 3) == m);
    assert(after_word(s, n + 2) == m);
    assert(token(s, n).text(s) =~= word);
    assert(after_spaces(s, m + 1) == m + 1);
    assert(after_spaces(s, m) == m + 1);
    assert(after_word(s, m + 4) == m + 4);
    assert(after_word(s, m + 3) == m + 4);
    assert(after_word(s, m + 2) == m + 4);
    assert(token(s, m).text(s) =~= "ago"@);
}

proof fn lemma_far_steps(word: Seq<char>, k: int, now: LocalDateTime)
    requires
        counts_far(word),
        200_000_000 <= k < 0x8000_0000,
        now.valid(),
    ensures
        unit_of(word) matches Some(unit) && !steps_fit(unit, -k, now),
{
    lemma_far_units();
    lemma_calendar_ends();
    lemma_usual_days(now.date);
}

/// The parser does not return on an amount that leads out of the calendar: two hundred
/// million days, weeks or years ago, or more.
pub proof fn law_far_amount_not_plain(digits: Seq<char>, word: Seq<char>, now: LocalDateTime)
    requires
        digits.len() > 0,
        forall|k: int| 0 <= k < digits.len() ==> ascii_digit(#[trigger] digits[k]),
        200_000_000 <= number_value(digits) < 0x8000_0000,
        counts_far(word),
        now.valid(),
    ensures
        !plain_english(digits + " "@ + word + " ago"@, now),
{
    let s = digits + " "@ + word + " ago"@;
    let m = (digits.len() + 1 + word.len()) as int;
    lemma_far_units();
    lemma_far_tokens(digits, word);
    lemma_far_steps(word, number_value(digits) as int, now);
    let t = token(s, 0);
    assert(small(word) == word && !names_month(word));
    assert(time_read(s, m + 4) == Reading::Taken);
    assert(units_read(s, m, unit_of(word)->0, number_value(digits), false, now)
        == Reading::Breaks);
    assert(word_behind_read(s, token(s, t.to), number_value(digits), false, now)
        == Reading::Breaks);
    assert(unsigned_read(s, t, false, now) == Reading::Breaks);
    reveal(date_read);
}

/// The parser returns on a word of any letters that can be cut behind its third byte, such
/// as one that starts with three letters of ASCII.
pub proof fn law_cut_word_plain(word: Seq<char>, now: LocalDateTime)
    requires
        0 < word.len() < u32::MAX,
        forall|i: int| 0 <= i < word.len() ==> letter(#[trigger] word[i]),
        !is_space(word[0]),
        small(word).len() >= 3,
        forall|i: int| 0 <= i < 3 ==> (#[trigger] small(word)[i] as u32) < 0x80,
    ensures
        plain_english(word, now),
{
    let len = word.len() as int;
    let w = small(word);
    lemma_letters_end(word, 1);
    assert(after_spaces(word, 0) == 0);
    assert(letter(word[0]));
    let t = token(word, 0);
    assert(t == Token { kind: Kind::Word, from: 0, to: len });
    assert(word.subrange(0, len) =~= word);
    assert(width(w[0]) == 1 && width(w[1]) == 1 && width(w[2]) == 1);
    let end = token(word, len);
    assert(end == Token { kind: Kind::End, from: len, to: len });
    assert(time_read(word, len) == Reading::Taken);
    assert(month_read(word, len) == Reading::Taken);
    assert(name_read(word, t) != Reading::Breaks);
    assert(body_read(word, end, false, now) == Reading::Refused);
    assert(unsigned_read(word, t, false, now) != Reading::Breaks);
    reveal(date_read);
}

/// The parser does not return on a word whose third byte is inside a character.
pub proof fn law_uncut_word_not_plain(word: Seq<char>, now: LocalDateTime)
    requires
        word.len() >= 2,
        forall|i: int| 0 <= i < word.len() ==> letter(#[trigger] word[i]),
        0x80 <= word[0] as u32 && (word[0] as u32) < 0x800,
        0x80 <= word[1] as u32 && (word[1] as u32) < 0x800,
        !is_space(word[0]),
        lowercase(word) == word,
        now.valid(),
    ensures
        !plain_english(word, now),
{
    let len = word.len() as int;
    lemma_letters_end(word, 1);
    assert(after_spaces(word, 0) == 0);
    assert(token(word, 0) == Token { kind: Kind::Word, from: 0, to: len });
    assert(word.subrange(0, len) =~= word);
    assert(small(word) == word) by {
        assert(!((word[0] as u32) < 0x80));
    }
    assert(!is_short(word) && !cuts_at_three(word));
    reveal_strlit("now");
    reveal_strlit("today");
    reveal_strlit("yesterday");
    reveal_strlit("tomorrow");
    reveal_strlit("next");
    reveal_strlit("last");
    assert("now"@[0] == 'n' && "today"@[0] == 't' && "yesterday"@[0] == 'y' && "tomorrow"@[0] == 't'
        && "next"@[0] == 'n' && "last"@[0] == 'l');
    assert(!names_near_day(word));
    assert(word != "next"@ && word != "last"@);
    reveal(date_read);
}

proof fn lemma_letters_end(s: Seq<char>, i: int)
    requires
        0 <= i <= s.len(),
        forall|k: int| 0 <= k < s.len() ==> letter(#[trigger] s[k]),
    ensures
        after_word(s, i) == s.len(),
    decreases s.len() - i,
{
    if i < s.len() {
        assert(letter(s[i]));
        lemma_letters_end(s, i + 1);
    }
}

// ---------------------------------------------------------------------------
// The parser
// ---------------------------------------------------------------------------

/// The date that `chrono_english` reads in a text at a moment.
pub uninterp spec fn english_reading(
    text: Seq<char>,
    now: LocalDateTime,
    dialect: EnglishDialect,
) -> Option<CalendarDate>;

/// `chrono_english::parse_date_string`, of whose result only the local date is kept;
/// a moment whose local date the calendar does not have gives none. `today`,
/// `yesterday` and `tomorrow` are the local date and its neighbours; of `yesterday`
/// this is not said within a leap second, which is passed before a day is taken off.
#[verifier::external_body]
pub(crate) fn read_english(text: &str, now: &LocalDateTime, dialect: EnglishDialect) -> (r: Option<
    CalendarDate,
>)
    requires
        now.valid(),
        plain_english(text@, *now),
    ensures
        r == english_reading(text@, *now, dialect),
        r matches Some(d) ==> d.valid(),
        text@ == "today"@ ==> r == Some(now.date),
        text@ == "yesterday"@ && now.nanosecond < 1_000_000_000 ==> r == Some(now.date.previous()),
        text@ == "tomorrow"@ ==> r == Some(now.date.next()),
{
    let base = chrono::NaiveDate::from_ymd_opt(now.date.year, now.date.month, now.date.day).unwrap()
        .and_hms_nano_opt(now.hour, now.minute, now.second, now.nanosecond).unwrap()
        .and_local_timezone(chrono::FixedOffset::east_opt(now.offset.seconds).unwrap()).unwrap();
    let dialect = match dialect {
        EnglishDialect::Uk => chrono_english::Dialect::Uk,
        EnglishDialect::Us => chrono_english::Dialect::Us,
    };
    let moment = chrono_english::parse_date_string(text, base, dialect).ok()?;
    let date = moment.naive_utc().checked_add_offset(*moment.offset())?.date();
    Some(CalendarDate { year: date.year(), month: date.month(), day: date.day() })
}

} // verus!
