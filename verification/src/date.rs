//! Calendar dates and moments with an offset from UTC.
//!
//! The calendar is the proleptic Gregorian one. Parsing, formatting and date
//! arithmetic are done by `chrono`; the functions that call it are at the end of
//! the file.

use vstd::prelude::*;

use chrono::Datelike;
use chrono::Timelike;

use crate::text::{lemma_padded_value, lemma_two_digits, lowered, padded};

verus! {

/// The first and the last year of the calendar.
pub const MIN_YEAR: i32 = -262143;

pub const MAX_YEAR: i32 = 262142;

/// A day of the calendar.
#[derive(Clone, Copy, Debug, PartialEq, Eq, Structural)]
pub struct CalendarDate {
    pub year: i32,
    pub month: u32,
    pub day: u32,
}

/// A fixed distance from UTC: local time minus UTC, in seconds.
#[derive(Clone, Copy, Debug, PartialEq, Eq, Structural)]
pub struct UtcOffset {
    pub seconds: i32,
}

/// A moment as RFC 3339 writes it: a local date and time with the offset that
/// they are read in. A leap second is the second before it with a nanosecond
/// count from one thousand million on.
#[derive(Clone, Copy, Debug, PartialEq, Eq, Structural)]
pub struct LocalDateTime {
    pub date: CalendarDate,
    pub hour: u32,
    pub minute: u32,
    pub second: u32,
    pub nanosecond: u32,
    pub offset: UtcOffset,
}

/// The kind of English in which a date such as `9/11` is read.
#[derive(Clone, Copy, Debug, PartialEq, Eq, Structural)]
pub enum EnglishDialect {
    Uk,
    Us,
}

pub open spec fn leap_year(year: int) -> bool {
    year % 4 == 0 && (year % 100 != 0 || year % 400 == 0)
}

pub open spec fn month_days(year: int, month: int) -> int {
    if month == 2 {
        if leap_year(year) {
            29
        } else {
            28
        }
    } else if month == 4 || month == 6 || month == 9 || month == 11 {
        30
    } else {
        31
    }
}

/// The days of `year` before its month `month`.
pub open spec fn days_before_month(year: int, month: int) -> int
    decreases month,
{
    if month <= 1 {
        0
    } else {
        days_before_month(year, month - 1) + month_days(year, month - 1)
    }
}

/// The days from the first of January of year one to the first of `year`.
pub open spec fn days_before_year(year: int) -> int {
    365 * (year - 1) + (year - 1) / 4 - (year - 1) / 100 + (year - 1) / 400
}

impl CalendarDate {
    /// Whether the date is on the calendar.
    pub open spec fn valid(self) -> bool {
        &&& MIN_YEAR <= self.year <= MAX_YEAR
        &&& 1 <= self.month <= 12
        &&& 1 <= self.day <= month_days(self.year as int, self.month as int)
    }

    /// The number of the day, the first of January of year one being day one.
    pub open spec fn number(self) -> int {
        days_before_year(self.year as int) + days_before_month(self.year as int, self.month as int)
            + self.day
    }

    /// The day after this one.
    pub open spec fn next(self) -> CalendarDate {
        if self.day < month_days(self.year as int, self.month as int) {
            CalendarDate { day: (self.day + 1) as u32, ..self }
        } else if self.month < 12 {
            CalendarDate { month: (self.month + 1) as u32, day: 1, ..self }
        } else {
            CalendarDate { year: (self.year + 1) as i32, month: 1, day: 1 }
        }
    }

    /// The day before this one.
    pub open spec fn previous(self) -> CalendarDate {
        if self.day > 1 {
            CalendarDate { day: (self.day - 1) as u32, ..self }
        } else if self.month > 1 {
            CalendarDate {
                month: (self.month - 1) as u32,
                day: month_days(self.year as int, self.month - 1) as u32,
                ..self
            }
        } else {
            CalendarDate { year: (self.year - 1) as i32, month: 12, day: 31 }
        }
    }

    /// Whether this is the last day of the calendar.
    pub open spec fn is_last(self) -> bool {
        self.year == MAX_YEAR && self.month == 12 && self.day == 31
    }

    /// Whether this is the first day of the calendar.
    pub open spec fn is_first(self) -> bool {
        self.year == MIN_YEAR && self.month == 1 && self.day == 1
    }

    /// The date with this year, month and day, where the calendar has it.
    pub fn from_ymd_opt(year: i32, month: u32, day: u32) -> (r: Option<CalendarDate>)
        ensures
            (CalendarDate { year, month, day }).valid() ==> r == Some(
                CalendarDate { year, month, day },
            ),
            !(CalendarDate { year, month, day }).valid() ==> r is None,
    {
        if year < MIN_YEAR || MAX_YEAR < year || month < 1 || 12 < month {
            return None;
        }
        let days: u32 = if month == 2 {
            if is_leap_year(year) {
                29
            } else {
                28
            }
        } else if month == 4 || month == 6 || month == 9 || month == 11 {
            30
        } else {
            31
        };
        if day < 1 || days < day {
            None
        } else {
            Some(CalendarDate { year, month, day })
        }
    }
}

impl UtcOffset {
    /// Less than a day in either direction.
    pub open spec fn valid(self) -> bool {
        -86400 < self.seconds < 86400
    }
}

impl LocalDateTime {
    pub open spec fn valid(self) -> bool {
        &&& self.date.valid()
        &&& 0 <= self.date.year <= 9999
        &&& self.hour < 24
        &&& self.minute < 60
        &&& self.second < 60
        &&& self.nanosecond < 1_000_000_000 || (self.second == 59 && self.nanosecond
            < 2_000_000_000)
        &&& self.offset.valid()
        &&& self.offset.seconds % 60 == 0
    }

    /// The seconds of the local day that have passed.
    pub open spec fn seconds_of_day(self) -> int {
        self.hour * 3600 + self.minute * 60 + self.second
    }

    pub fn offset(&self) -> (r: UtcOffset)
        ensures
            r == self.offset,
    {
        self.offset
    }
}

// ---------------------------------------------------------------------------
// Dates as texts
// ---------------------------------------------------------------------------

/// A year with at least four digits, and with a sign outside of 0 to 9999.
pub open spec fn year_text(year: int) -> Seq<char> {
    if 0 <= year <= 9999 {
        padded(year as nat, 4)
    } else if year > 9999 {
        seq!['+'] + padded(year as nat, 4)
    } else {
        seq!['-'] + padded((-year) as nat, 4)
    }
}

/// Two digits, with a zero in front where they are needed.
pub open spec fn two_digits(n: int) -> Seq<char> {
    padded(n as nat, 2)
}

pub open spec fn month_name(month: int) -> Seq<char> {
    if month == 1 {
        "January"@
    } else if month == 2 {
        "February"@
    } else if month == 3 {
        "March"@
    } else if month == 4 {
        "April"@
    } else if month == 5 {
        "May"@
    } else if month == 6 {
        "June"@
    } else if month == 7 {
        "July"@
    } else if month == 8 {
        "August"@
    } else if month == 9 {
        "September"@
    } else if month == 10 {
        "October"@
    } else if month == 11 {
        "November"@
    } else {
        "December"@
    }
}

/// The English name of the month in small letters.
pub open spec fn month_slug(month: int) -> Seq<char> {
    lowered(month_name(month))
}

/// `YYYY-MM-DD`.
pub open spec fn iso_text(date: CalendarDate) -> Seq<char> {
    year_text(date.year as int) + "-"@ + two_digits(date.month as int) + "-"@ + two_digits(
        date.day as int,
    )
}

/// `+hh:mm` or `-hh:mm`.
pub open spec fn offset_text(offset: UtcOffset) -> Seq<char> {
    let minutes: int = if offset.seconds < 0 {
        -offset.seconds / 60
    } else {
        offset.seconds / 60
    };
    (if offset.seconds < 0 {
        "-"@
    } else {
        "+"@
    }) + two_digits(minutes / 60) + ":"@ + two_digits(minutes % 60)
}

/// `YYYY-MM-DDTHH:MM:SS+hh:mm`; a leap second is written as second sixty.
pub open spec fn timestamp_text(moment: LocalDateTime) -> Seq<char> {
    iso_text(moment.date) + "T"@ + two_digits(moment.hour as int) + ":"@ + two_digits(
        moment.minute as int,
    ) + ":"@ + two_digits(moment.second + moment.nanosecond as int / 1_000_000_000) + offset_text(
        moment.offset,
    )
}

/// The text of a year tells the year.
pub proof fn law_year_text(a: int, b: int)
    requires
        year_text(a) == year_text(b),
    ensures
        a == b,
{
    lemma_padded_value(a as nat, 4);
    lemma_padded_value(b as nat, 4);
    lemma_padded_value((-a) as nat, 4);
    lemma_padded_value((-b) as nat, 4);
    let (s, t) = (year_text(a), year_text(b));
    assert(s[0] == t[0]);
    if !(0 <= a <= 9999) {
        assert(s.skip(1) =~= padded(if a > 0 {
            a as nat
        } else {
            (-a) as nat
        }, 4));
        assert(t.skip(1) =~= padded(if b > 0 {
            b as nat
        } else {
            (-b) as nat
        }, 4));
    }
}

/// The ISO text of a date tells the date.
pub proof fn law_iso_text(a: CalendarDate, b: CalendarDate)
    requires
        a.valid(),
        b.valid(),
        iso_text(a) == iso_text(b),
    ensures
        a == b,
{
    reveal_strlit("-");
    lemma_two_digits(a.month as nat);
    lemma_two_digits(a.day as nat);
    lemma_two_digits(b.month as nat);
    lemma_two_digits(b.day as nat);
    let (s, t) = (iso_text(a), iso_text(b));
    let n = year_text(a.year as int).len() as int;
    assert(s.len() == n + 6);
    assert(t.len() == year_text(b.year as int).len() + 6);
    assert(s.take(n) =~= year_text(a.year as int));
    assert(t.take(n) =~= year_text(b.year as int));
    law_year_text(a.year as int, b.year as int);
    assert(s.subrange(n + 1, n + 3) =~= two_digits(a.month as int));
    assert(t.subrange(n + 1, n + 3) =~= two_digits(b.month as int));
    assert(s.subrange(n + 4, n + 6) =~= two_digits(a.day as int));
    assert(t.subrange(n + 4, n + 6) =~= two_digits(b.day as int));
    lemma_padded_value(a.month as nat, 2);
    lemma_padded_value(b.month as nat, 2);
    lemma_padded_value(a.day as nat, 2);
    lemma_padded_value(b.day as nat, 2);
}

// ---------------------------------------------------------------------------
// The numbering of the days
// ---------------------------------------------------------------------------

proof fn lemma_month_sums(year: int)
    ensures
        days_before_month(year, 13) == if leap_year(year) {
            366int
        } else {
            365int
        },
{
    let leap: int = if leap_year(year) {
        1
    } else {
        0
    };
    assert(days_before_month(year, 1) == 0);
    assert(days_before_month(year, 2) == 31);
    assert(days_before_month(year, 3) == 59 + leap);
    assert(days_before_month(year, 4) == 90 + leap);
    assert(days_before_month(year, 5) == 120 + leap);
    assert(days_before_month(year, 6) == 151 + leap);
    assert(days_before_month(year, 7) == 181 + leap);
    assert(days_before_month(year, 8) == 212 + leap);
    assert(days_before_month(year, 9) == 243 + leap);
    assert(days_before_month(year, 10) == 273 + leap);
    assert(days_before_month(year, 11) == 304 + leap);
    assert(days_before_month(year, 12) == 334 + leap);
}

proof fn lemma_year_quotients(year: int)
    ensures
        year / 4 - (year - 1) / 4 == if year % 4 == 0 {
            1int
        } else {
            0int
        },
        year / 100 - (year - 1) / 100 == if year % 100 == 0 {
            1int
        } else {
            0int
        },
        year / 400 - (year - 1) / 400 == if year % 400 == 0 {
            1int
        } else {
            0int
        },
{
}

#[verifier::spinoff_prover]
#[verifier::rlimit(60)]
proof fn lemma_year_length(year: int)
    ensures
        days_before_year(year + 1) - days_before_year(year) == days_before_month(year, 13),
        days_before_month(year, 13) == if leap_year(year) {
            366int
        } else {
            365int
        },
{
    lemma_month_sums(year);
    lemma_year_quotients(year);
    assert(year % 400 == 0 ==> year % 100 == 0);
    assert(year % 100 == 0 ==> year % 4 == 0);
}

proof fn lemma_years_ordered(a: int, b: int)
    requires
        a < b,
    ensures
        days_before_year(a + 1) <= days_before_year(b),
    decreases b - a,
{
    if a + 1 < b {
        lemma_years_ordered(a, b - 1);
        lemma_year_length(b - 1);
    }
}

proof fn lemma_months_ordered(year: int, a: int, b: int)
    requires
        1 <= a < b,
    ensures
        days_before_month(year, a) + month_days(year, a) <= days_before_month(year, b),
    decreases b - a,
{
    if a + 1 < b {
        lemma_months_ordered(year, a, b - 1);
    }
}

proof fn lemma_within_year(date: CalendarDate)
    requires
        date.valid(),
    ensures
        days_before_year(date.year as int) < date.number() <= days_before_year(date.year + 1),
        days_before_month(date.year as int, date.month as int) >= 0,
{
    lemma_year_length(date.year as int);
    if date.month > 1 {
        lemma_months_ordered(date.year as int, 1, date.month as int);
    }
    lemma_months_ordered(date.year as int, date.month as int, 13);
}

/// Two days of the calendar with the same number are the same day.
pub proof fn law_number_identifies(a: CalendarDate, b: CalendarDate)
    requires
        a.valid(),
        b.valid(),
        a.number() == b.number(),
    ensures
        a == b,
{
    lemma_within_year(a);
    lemma_within_year(b);
    if a.year < b.year {
        lemma_years_ordered(a.year as int, b.year as int);
    } else if b.year < a.year {
        lemma_years_ordered(b.year as int, a.year as int);
    } else if a.month < b.month {
        lemma_months_ordered(a.year as int, a.month as int, b.month as int);
    } else if b.month < a.month {
        lemma_months_ordered(a.year as int, b.month as int, a.month as int);
    }
}

/// The day after a day has the next number, and the day before it is that day
/// again. Only the last day of the calendar has no day after it.
#[verifier::rlimit(60)]
pub proof fn law_next_day(date: CalendarDate)
    requires
        date.valid(),
        !date.is_last(),
    ensures
        date.next().valid(),
        date.next().number() == date.number() + 1,
        date.next().previous() == date,
{
    lemma_year_length(date.year as int);
    reveal_with_fuel(days_before_month, 13);
}

/// The day before a day has the number before, and the day after it is that day
/// again. Only the first day of the calendar has no day before it.
#[verifier::rlimit(60)]
pub proof fn law_previous_day(date: CalendarDate)
    requires
        date.valid(),
        !date.is_first(),
    ensures
        date.previous().valid(),
        date.previous().number() == date.number() - 1,
        date.previous().next() == date,
{
    lemma_year_length(date.year as int);
    lemma_year_length(date.year - 1);
    reveal_with_fuel(days_before_month, 13);
}

/// The number of the day on which a moment falls at an offset.
pub open spec fn local_day(moment: LocalDateTime, offset: UtcOffset) -> int {
    (moment.date.number() * 86400 + moment.seconds_of_day() - moment.offset.seconds
        + offset.seconds) / 86400
}

/// At its own offset a moment falls on its own date.
pub proof fn law_local_day(moment: LocalDateTime)
    requires
        moment.valid(),
    ensures
        local_day(moment, moment.offset) == moment.date.number(),
{
}

/// The number of the first day of the calendar.
pub open spec fn first_number() -> int {
    (CalendarDate { year: MIN_YEAR, month: 1, day: 1 }).number()
}

/// The number of the last day of the calendar.
pub open spec fn last_number() -> int {
    (CalendarDate { year: MAX_YEAR, month: 12, day: 31 }).number()
}

/// Every day of the calendar is numbered from the first to the last.
#[verifier::rlimit(60)]
pub proof fn law_number_range(date: CalendarDate)
    requires
        date.valid(),
    ensures
        first_number() <= date.number() <= last_number(),
{
    let first = CalendarDate { year: MIN_YEAR, month: 1, day: 1 };
    let last = CalendarDate { year: MAX_YEAR, month: 12, day: 31 };
    lemma_within_year(date);
    lemma_year_length(MAX_YEAR as int);
    reveal_with_fuel(days_before_month, 13);
    if date.year > MIN_YEAR {
        lemma_years_ordered(MIN_YEAR as int, date.year as int);
        lemma_within_year(first);
    }
    if date.year < MAX_YEAR {
        lemma_years_ordered(date.year as int, MAX_YEAR as int);
        lemma_within_year(last);
    }
}

/// Which days the calendar has: all months have 28 days, all but February 30, seven of
/// them 31; February has 29 in every fourth year, but of the full centuries only in
/// every fourth.
pub proof fn law_calendar_days(year: i32, month: u32, day: u32)
    requires
        -262_143 <= year <= 262_142,
    ensures
        (CalendarDate { year, month, day }).valid() <==> 1 <= month <= 12 && 1 <= day && (day <= 28
            || (day == 29 && (month != 2 || (year % 400 == 0 || (year % 4 == 0 && year % 100 != 0))))
            || (day == 30 && month != 2) || (day == 31 && (month == 1 || month == 3 || month == 5
            || month == 7 || month == 8 || month == 10 || month == 12))),
{
    assert(year as int % 400 == 0 ==> year as int % 4 == 0);
}

/// The days are numbered from the first of January of year one; the first of January of
/// 1970 has the number that days since then are counted from.
pub proof fn law_number_starts()
    ensures
        (CalendarDate { year: 1, month: 1, day: 1 }).number() == 1,
        (CalendarDate { year: 1970, month: 1, day: 1 }).number() == 719_163,
{
    assert(days_before_month(1, 1) == 0);
    assert(days_before_month(1970, 1) == 0);
}

// ---------------------------------------------------------------------------
// Calls of `chrono`
// ---------------------------------------------------------------------------

/// The pattern of an ISO date.
pub const ISO_PATTERN: &'static str = "%Y-%m-%d";

/// The pattern of a timestamp.
pub const TIMESTAMP_PATTERN: &'static str = "%Y-%m-%dT%H:%M:%S%:z";

pub open spec fn ascii_letter(c: char) -> bool {
    'a' <= c <= 'z' || 'A' <= c <= 'Z'
}

pub open spec fn ascii_digit(c: char) -> bool {
    '0' <= c <= '9'
}

/// Whether `s` starts with an ASCII letter.
pub open spec fn starts_with_letter(s: Seq<char>) -> bool {
    s.len() > 0 && ascii_letter(s[0])
}

/// The date that `chrono` reads in a text by a pattern.
pub uninterp spec fn date_reading(text: Seq<char>, pattern: Seq<char>) -> Option<CalendarDate>;

/// The moment that `chrono` reads in an RFC 3339 text, or its message.
pub uninterp spec fn moment_reading(text: Seq<char>) -> Result<LocalDateTime, Seq<char>>;

/// `chrono::NaiveDate::parse_from_str`. Read by the ISO pattern, the text of a
/// date gives that date back, and a text that starts with a letter is no date.
#[verifier::external_body]
pub(crate) fn read_date(text: &str, pattern: &str) -> (r: Option<CalendarDate>)
    ensures
        r == date_reading(text@, pattern@),
        r matches Some(d) ==> d.valid(),
        pattern@ == ISO_PATTERN@ ==> forall|d: CalendarDate|
            #![trigger iso_text(d)]
            d.valid() && text@ == iso_text(d) ==> r == Some(d),
        pattern@ == ISO_PATTERN@ && starts_with_letter(text@) ==> r is None,
{
    let date = chrono::NaiveDate::parse_from_str(text, pattern).ok()?;
    Some(CalendarDate { year: date.year(), month: date.month(), day: date.day() })
}

/// `chrono::DateTime::parse_from_rfc3339`. The moment that it gives is within
/// the years that RFC 3339 can write, with an offset of whole minutes; a text
/// that starts with a letter is none.
#[verifier::external_body]
pub(crate) fn read_moment(text: &str) -> (r: Result<LocalDateTime, String>)
    ensures
        match r {
            Ok(m) => moment_reading(text@) == Ok::<LocalDateTime, Seq<char>>(m) && m.valid(),
            Err(e) => moment_reading(text@) == Err::<LocalDateTime, Seq<char>>(e@),
        },
        starts_with_letter(text@) ==> r is Err,
{
    match chrono::DateTime::parse_from_rfc3339(text) {
        Ok(t) => Ok(
            LocalDateTime {
                date: CalendarDate { year: t.year(), month: t.month(), day: t.day() },
                hour: t.hour(),
                minute: t.minute(),
                second: t.second(),
                nanosecond: t.nanosecond(),
                offset: UtcOffset { seconds: t.offset().local_minus_utc() },
            },
        ),
        Err(e) => Err(e.to_string()),
    }
}

pub fn is_ascii_digit(c: char) -> (r: bool)
    ensures
        r == ascii_digit(c),
{
    '0' <= c && c <= '9'
}

pub fn is_ascii_letter(c: char) -> (r: bool)
    ensures
        r == ascii_letter(c),
{
    ('a' <= c && c <= 'z') || ('A' <= c && c <= 'Z')
}

/// `n` divided by `d` with a remainder that is not negative.
fn quotient(n: i64, d: i64) -> (r: i64)
    requires
        -262_400 <= n <= 262_400,
        d == 4 || d == 100 || d == 400,
    ensures
        r == n as int / d as int,
{
    if d == 4 {
        (n + 262_400) / 4 - 65_600
    } else if d == 100 {
        (n + 262_400) / 100 - 2_624
    } else {
        (n + 262_400) / 400 - 656
    }
}

/// The days before a year.
fn days_of_years(year: i32) -> (r: i64)
    requires
        MIN_YEAR <= year <= MAX_YEAR,
    ensures
        r == days_before_year(year as int),
        -100_000_000 <= r <= 100_000_000,
{
    let before: i64 = year as i64 - 1;
    365 * before + quotient(before, 4) - quotient(before, 100) + quotient(before, 400)
}

fn is_leap_year(year: i32) -> (r: bool)
    ensures
        r == leap_year(year as int),
{
    year % 4 == 0 && (year % 100 != 0 || year % 400 == 0)
}

/// The number of a day.
pub fn day_number(date: CalendarDate) -> (r: i64)
    requires
        date.valid(),
    ensures
        r == date.number(),
{
    let leap = is_leap_year(date.year);
    let mut days: i64 = days_of_years(date.year);
    let mut month: u32 = 1;
    while month < date.month
        invariant
            date.valid(),
            1 <= month <= date.month,
            leap == leap_year(date.year as int),
            days == days_before_year(date.year as int) + days_before_month(
                date.year as int,
                month as int,
            ),
            -100_000_000 <= days <= 100_000_000 + 31 * month,
        decreases date.month - month,
    {
        let length: i64 = if month == 2 {
            if leap {
                29
            } else {
                28
            }
        } else if month == 4 || month == 6 || month == 9 || month == 11 {
            30
        } else {
            31
        };
        days = days + length;
        month = month + 1;
    }
    days + date.day as i64
}

/// The numbers of the first and the last day.
pub proof fn lemma_calendar_ends()
    ensures
        first_number() == -95_746_129,
        last_number() == 95_745_399,
{
    reveal_with_fuel(days_before_month, 13);
}

/// `chrono::NaiveDate::format` with the patterns that the library uses: the
/// year, the month and the day in digits, and the English name of the month.
#[verifier::external_body]
pub(crate) fn format_date(date: CalendarDate, pattern: &str) -> (r: String)
    requires
        date.valid(),
        pattern@ == "%Y"@ || pattern@ == "%m"@ || pattern@ == ISO_PATTERN@ || pattern@ == "%B"@
            || pattern@ == "%B %Y"@ || pattern@ == "%B %d, %Y"@,
    ensures
        pattern@ == "%Y"@ ==> r@ == year_text(date.year as int),
        pattern@ == "%m"@ ==> r@ == two_digits(date.month as int),
        pattern@ == ISO_PATTERN@ ==> r@ == iso_text(date),
        pattern@ == "%B"@ ==> r@ == month_name(date.month as int),
        pattern@ == "%B %Y"@ ==> r@ == month_name(date.month as int) + " "@ + year_text(
            date.year as int,
        ),
        pattern@ == "%B %d, %Y"@ ==> r@ == month_name(date.month as int) + " "@ + two_digits(
            date.day as int,
        ) + ", "@ + year_text(date.year as int),
{
    let date = chrono::NaiveDate::from_ymd_opt(date.year, date.month, date.day).unwrap();
    date.format(pattern).to_string()
}

/// `chrono::DateTime::format` with the pattern of a timestamp.
#[verifier::external_body]
pub(crate) fn format_moment(moment: &LocalDateTime, pattern: &str) -> (r: String)
    requires
        moment.valid(),
        pattern@ == TIMESTAMP_PATTERN@,
    ensures
        r@ == timestamp_text(*moment),
{
    let offset = chrono::FixedOffset::east_opt(moment.offset.seconds).unwrap();
    let date = chrono::NaiveDate::from_ymd_opt(
        moment.date.year,
        moment.date.month,
        moment.date.day,
    ).unwrap();
    let time = chrono::NaiveTime::from_hms_nano_opt(
        moment.hour,
        moment.minute,
        moment.second,
        moment.nanosecond,
    ).unwrap();
    date.and_time(time).and_local_timezone(offset).unwrap().format(pattern).to_string()
}

/// `chrono::NaiveDate::checked_add_signed` with whole days: the day that many
/// numbers on, or nothing where the calendar has no such day.
#[verifier::external_body]
pub(crate) fn shift_days(date: CalendarDate, days: i64) -> (r: Option<CalendarDate>)
    requires
        date.valid(),
        -100_000_000_000 <= days <= 100_000_000_000,
    ensures
        match r {
            Some(d) => d.valid() && d.number() == date.number() + days,
            None => date.number() + days < first_number() || last_number() < date.number() + days,
        },
{
    let start = chrono::NaiveDate::from_ymd_opt(date.year, date.month, date.day).unwrap();
    let date = start.checked_add_signed(chrono::Duration::days(days))?;
    Some(CalendarDate { year: date.year(), month: date.month(), day: date.day() })
}

/// `chrono::DateTime::with_timezone`, of whose result only the date is kept: the
/// local date of the same moment at another offset.
#[verifier::external_body]
pub(crate) fn date_at_offset(moment: &LocalDateTime, offset: UtcOffset) -> (r: CalendarDate)
    requires
        moment.valid(),
        offset.valid(),
    ensures
        r.valid(),
        r.number() == local_day(*moment, offset),
{
    let date = chrono::NaiveDate::from_ymd_opt(moment.date.year, moment.date.month, moment.date.day);
    let read_in = chrono::FixedOffset::east_opt(moment.offset.seconds).unwrap();
    let shown_in = chrono::FixedOffset::east_opt(offset.seconds).unwrap();
    let moment = date.unwrap().and_hms_nano_opt(
        moment.hour,
        moment.minute,
        moment.second,
        moment.nanosecond,
    ).unwrap().and_local_timezone(read_in).unwrap();
    let date = moment.with_timezone(&shown_in).date_naive();
    CalendarDate { year: date.year(), month: date.month(), day: date.day() }
}

} // verus!
