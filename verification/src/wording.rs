//! How texts are trimmed and filled, and how paths, titles and dates are spelled.

use vstd::arithmetic::div_mod::lemma_fundamental_div_mod_converse;
use vstd::prelude::*;

use crate::daily_logic::{
    any_input_date, default_template, effective_folder, folder_text, input_text, paths_of, rendered,
    DailyError,
};
use crate::date::{
    date_reading, iso_text, moment_reading, month_name, timestamp_text, two_digits, year_text,
    CalendarDate, EnglishDialect, LocalDateTime,
};
use crate::english::{english_reading, everyday, law_everyday_plain};
use crate::entries::{entry_title, month_title};
use crate::text::{
    digit, is_space, lemma_padded_digits, lowered, numeral, padded, replaced, signed_numeral,
    slash_trimmed, slashes, spaces, trimmed, without_back, without_front,
};

verus! {

// ---------------------------------------------------------------------------
// Trimming
// ---------------------------------------------------------------------------

/// Whether all characters of a text are of a set.
pub open spec fn only(s: Seq<char>, set: spec_fn(char) -> bool) -> bool {
    forall|i: int| 0 <= i < s.len() ==> set(#[trigger] s[i])
}

proof fn lemma_front_gone(a: Seq<char>, t: Seq<char>, set: spec_fn(char) -> bool)
    requires
        only(a, set),
    ensures
        without_front(a + t, set) == without_front(t, set),
    decreases a.len(),
{
    if a.len() == 0 {
        assert(a + t =~= t);
    } else {
        assert(set(a[0]));
        assert((a + t)[0] == a[0]);
        assert((a + t).drop_first() =~= a.drop_first() + t);
        assert forall|i: int| 0 <= i < a.drop_first().len() implies set(
            #[trigger] a.drop_first()[i],
        ) by {
            assert(set(a[i + 1]));
        }
        lemma_front_gone(a.drop_first(), t, set);
    }
}

proof fn lemma_back_gone(t: Seq<char>, b: Seq<char>, set: spec_fn(char) -> bool)
    requires
        only(b, set),
    ensures
        without_back(t + b, set) == without_back(t, set),
    decreases b.len(),
{
    if b.len() == 0 {
        assert(t + b =~= t);
    } else {
        assert(set(b[b.len() - 1]));
        assert((t + b).drop_last() =~= t + b.drop_last());
        assert forall|i: int| 0 <= i < b.drop_last().len() implies set(
            #[trigger] b.drop_last()[i],
        ) by {
            assert(set(b[i]));
        }
        lemma_back_gone(t, b.drop_last(), set);
    }
}

proof fn lemma_ends_gone(a: Seq<char>, s: Seq<char>, b: Seq<char>, set: spec_fn(char) -> bool)
    requires
        only(a, set),
        only(b, set),
        s.len() > 0 ==> !set(s[0]) && !set(s.last()),
    ensures
        without_back(without_front(a + s + b, set), set) == s,
{
    assert(a + s + b =~= a + (s + b));
    lemma_front_gone(a, s + b, set);
    if s.len() == 0 {
        assert(s + b =~= b + s);
        lemma_front_gone(b, s, set);
    } else {
        assert((s + b)[0] == s[0]);
        lemma_back_gone(s, b, set);
    }
}

/// Trimming takes the white space off both ends, and nothing else.
pub proof fn law_trimmed(a: Seq<char>, s: Seq<char>, b: Seq<char>)
    requires
        forall|i: int| 0 <= i < a.len() ==> is_space(#[trigger] a[i]),
        forall|i: int| 0 <= i < b.len() ==> is_space(#[trigger] b[i]),
        s.len() > 0 ==> !is_space(s[0]) && !is_space(s.last()),
    ensures
        trimmed(a + s + b) == s,
{
    lemma_ends_gone(a, s, b, spaces());
}

/// A folder is written with or without slashes at its ends; without a name it is
/// `Daily`.
pub proof fn law_folder_slashes(a: Seq<char>, folder: Seq<char>, b: Seq<char>)
    requires
        forall|i: int| 0 <= i < a.len() ==> #[trigger] a[i] == '/',
        forall|i: int| 0 <= i < b.len() ==> #[trigger] b[i] == '/',
        folder.len() > 0 ==> folder[0] != '/' && folder.last() != '/',
    ensures
        slash_trimmed(a + folder + b) == folder,
        folder_text(Some(a + folder + b)) == folder,
        folder_text(None) == Seq::<char>::empty(),
        effective_folder(Some(a + folder + b)) == if folder.len() > 0 {
            folder
        } else {
            "Daily"@
        },
        effective_folder(None) == "Daily"@,
{
    lemma_ends_gone(a, folder, b, slashes());
}

// ---------------------------------------------------------------------------
// Templates
// ---------------------------------------------------------------------------

proof fn lemma_replaced_behind(a: Seq<char>, b: Seq<char>, part: Seq<char>, by: Seq<char>)
    requires
        part.len() > 0,
        forall|i: int| 0 <= i < a.len() ==> !part.is_prefix_of(#[trigger] (a + b).skip(i)),
    ensures
        replaced(a + b, part, by) == a + replaced(b, part, by),
    decreases a.len(),
{
    let all = a + b;
    if a.len() == 0 {
        assert(all =~= b);
        assert(a + replaced(b, part, by) =~= replaced(b, part, by));
    } else {
        assert(all.skip(0) =~= all);
        assert(!part.is_prefix_of(all));
        let rest = a.drop_first() + b;
        assert(all.drop_first() =~= rest);
        assert forall|i: int| 0 <= i < a.drop_first().len() implies !part.is_prefix_of(
            #[trigger] rest.skip(i),
        ) by {
            assert(rest.skip(i) =~= all.skip(i + 1));
        }
        lemma_replaced_behind(a.drop_first(), b, part, by);
        if all.len() < part.len() {
            assert(replaced(b, part, by) == b);
        } else {
            assert(seq![all[0]] + (a.drop_first() + replaced(b, part, by)) =~= a + replaced(
                b,
                part,
                by,
            ));
        }
    }
}

/// Replacing leaves what stands before the part, puts the new text in its place, and
/// goes on behind it; a text without the part stays.
pub proof fn law_replaced(a: Seq<char>, b: Seq<char>, part: Seq<char>, by: Seq<char>)
    requires
        part.len() > 0,
        !a.contains(part[0]),
    ensures
        replaced(a + part + b, part, by) == a + by + replaced(b, part, by),
        replaced(a, part, by) == a,
{
    let all = a + (part + b);
    assert(a + part + b =~= all);
    assert forall|i: int| 0 <= i < a.len() implies !part.is_prefix_of(#[trigger] all.skip(i)) by {
        assert(all.skip(i)[0] == a[i]);
        assert(a.contains(a[i]));
    }
    lemma_replaced_behind(a, part + b, part, by);
    assert(part.is_prefix_of(part + b));
    assert((part + b).skip(part.len() as int) =~= b);
    assert(a + (by + replaced(b, part, by)) =~= a + by + replaced(b, part, by));
    let none = Seq::<char>::empty();
    assert forall|i: int| 0 <= i < a.len() implies !part.is_prefix_of(
        #[trigger] (a + none).skip(i),
    ) by {
        if (a + none).skip(i).len() > 0 {
            assert((a + none).skip(i)[0] == a[i]);
            assert(a.contains(a[i]));
        }
    }
    lemma_replaced_behind(a, none, part, by);
    assert(a + none =~= a);
}

/// A part of a template: a text as it stands, or a placeholder.
pub enum Piece {
    Words(Seq<char>),
    Title,
    Date,
    Parent,
    Time,
}

/// How a part is written in a template.
pub open spec fn piece_text(piece: Piece) -> Seq<char> {
    match piece {
        Piece::Words(words) => words,
        Piece::Title => "{{title}}"@,
        Piece::Date => "{{date}}"@,
        Piece::Parent => "{{part_of}}"@,
        Piece::Time => "{{timestamp}}"@,
    }
}

/// What stands for a part in an entry.
pub open spec fn piece_filled(
    piece: Piece,
    title: Seq<char>,
    date: Seq<char>,
    part_of: Seq<char>,
    time: Seq<char>,
) -> Seq<char> {
    match piece {
        Piece::Words(words) => words,
        Piece::Title => title,
        Piece::Date => date,
        Piece::Parent => part_of,
        Piece::Time => time,
    }
}

/// The parts one behind another, with some of the placeholders filled.
pub open spec fn pieces_filled(
    pieces: Seq<Piece>,
    title: Seq<char>,
    date: Seq<char>,
    part_of: Seq<char>,
    time: Seq<char>,
) -> Seq<char>
    decreases pieces.len(),
{
    if pieces.len() == 0 {
        Seq::empty()
    } else {
        piece_filled(pieces[0], title, date, part_of, time) + pieces_filled(
            pieces.drop_first(),
            title,
            date,
            part_of,
            time,
        )
    }
}

/// Whether the texts between the placeholders have no brace that opens.
pub open spec fn clear(pieces: Seq<Piece>) -> bool {
    forall|i: int| 0 <= i < pieces.len() ==> (#[trigger] pieces[i] matches Piece::Words(words) ==> !words.contains('{'))
}

proof fn lemma_placeholders()
    ensures
        "{{title}}"@ =~= seq!['{', '{', 't', 'i', 't', 'l', 'e', '}', '}'],
        "{{date}}"@ =~= seq!['{', '{', 'd', 'a', 't', 'e', '}', '}'],
        "{{part_of}}"@ =~= seq!['{', '{', 'p', 'a', 'r', 't', '_', 'o', 'f', '}', '}'],
        "{{timestamp}}"@ =~= seq!['{', '{', 't', 'i', 'm', 'e', 's', 't', 'a', 'm', 'p', '}', '}'],
{
    reveal_strlit("{{title}}");
    reveal_strlit("{{date}}");
    reveal_strlit("{{part_of}}");
    reveal_strlit("{{timestamp}}");
}

/// Whether a text is one of the placeholders.
pub open spec fn placeholder(s: Seq<char>) -> bool {
    s == "{{title}}"@ || s == "{{date}}"@ || s == "{{part_of}}"@ || s == "{{timestamp}}"@
}

/// Replacing a placeholder leaves a part that is another one, or has no brace.
proof fn lemma_piece_stays(a: Seq<char>, b: Seq<char>, part: Seq<char>, by: Seq<char>)
    requires
        placeholder(part),
        !a.contains('{') || (placeholder(a) && a != part),
    ensures
        replaced(a + b, part, by) == a + replaced(b, part, by),
{
    lemma_placeholders();
    let all = a + b;
    assert forall|i: int| 0 <= i < a.len() implies !part.is_prefix_of(#[trigger] all.skip(i)) by {
        let rest = all.skip(i);
        assert(part[0] == '{' && part[1] == '{');
        assert(rest[0] == a[i]);
        if part.is_prefix_of(rest) {
            assert(rest[0] == part[0]);
            assert(rest[1] == part[1]);
            assert(a.contains(a[i]));
            assert(a[i] == '{');
            if i == 0 {
                assert(rest[2] == part[2] && rest[3] == part[3] && rest[4] == part[4]);
                assert(a[2] == part[2] && a[3] == part[3] && a[4] == part[4]);
            } else {
                assert(i == 1);
                assert(rest[1] == a[2]);
            }
        }
    }
    lemma_replaced_behind(a, b, part, by);
}

proof fn lemma_piece_gone(b: Seq<char>, part: Seq<char>, by: Seq<char>)
    requires
        placeholder(part),
    ensures
        replaced(part + b, part, by) == by + replaced(b, part, by),
{
    lemma_placeholders();
    let all = part + b;
    assert(part.is_prefix_of(all));
    assert(all.skip(part.len() as int) =~= b);
}

/// Filling one kind of placeholder, where the texts filled before have no brace.
proof fn lemma_pieces_replaced(
    pieces: Seq<Piece>,
    was: (Seq<char>, Seq<char>, Seq<char>, Seq<char>),
    now: (Seq<char>, Seq<char>, Seq<char>, Seq<char>),
    part: Seq<char>,
    by: Seq<char>,
)
    requires
        clear(pieces),
        placeholder(part),
        forall|piece: Piece|
            piece !is Words ==> {
                let old_text = #[trigger] piece_filled(piece, was.0, was.1, was.2, was.3);
                let new_text = piece_filled(piece, now.0, now.1, now.2, now.3);
                (old_text == part && new_text == by) || (old_text == new_text && old_text != part
                    && (!old_text.contains('{') || placeholder(old_text)))
            },
    ensures
        replaced(pieces_filled(pieces, was.0, was.1, was.2, was.3), part, by) == pieces_filled(
            pieces,
            now.0,
            now.1,
            now.2,
            now.3,
        ),
    decreases pieces.len(),
{
    lemma_placeholders();
    if pieces.len() > 0 {
        let rest = pieces.drop_first();
        assert forall|i: int| 0 <= i < rest.len() implies (#[trigger] rest[i] matches Piece::Words(
            words,
        ) ==> !words.contains('{')) by {
            assert(rest[i] == pieces[i + 1]);
        }
        lemma_pieces_replaced(rest, was, now, part, by);
        let tail = pieces_filled(rest, was.0, was.1, was.2, was.3);
        let a = piece_filled(pieces[0], was.0, was.1, was.2, was.3);
        if a == part && pieces[0] !is Words {
            lemma_piece_gone(tail, part, by);
        } else {
            if pieces[0] is Words {
                assert(!a.contains('{'));
            }
            lemma_piece_stays(a, tail, part, by);
        }
    }
}

/// The text of a date has no brace.
proof fn lemma_iso_clear(date: CalendarDate)
    ensures
        !iso_text(date).contains('{'),
{
    reveal_strlit("-");
    let s = iso_text(date);
    if s.contains('{') {
        let i = s.index_of('{');
        assert(s[i] == '{');
        let y = year_text(date.year as int);
        let year: nat = if date.year < 0 {
            (-date.year) as nat
        } else {
            date.year as nat
        };
        lemma_padded_digits(year, 4);
        lemma_padded_digits(date.month as nat, 2);
        lemma_padded_digits(date.day as nat, 2);
        let m = two_digits(date.month as int);
        if i < y.len() {
            assert(s[i] == y[i]);
            if !(0 <= date.year <= 9999) && i > 0 {
                assert(y[i] == padded(year, 4)[i - 1]);
            }
        } else if i > y.len() && i < y.len() + 1 + m.len() {
            assert(s[i] == m[i - y.len() - 1]);
        } else if i > y.len() + 1 + m.len() {
            assert(s[i] == two_digits(date.day as int)[i - y.len() - 2 - m.len()]);
        }
    }
}

/// A template is filled part by part: each placeholder gives way to its text wherever
/// it stands, and all else stays.
pub proof fn law_rendered(
    pieces: Seq<Piece>,
    title: Seq<char>,
    date: CalendarDate,
    part_of: Seq<char>,
    now: LocalDateTime,
)
    requires
        clear(pieces),
        !title.contains('{'),
        !part_of.contains('{'),
    ensures
        rendered(
            pieces_filled(
                pieces,
                "{{title}}"@,
                "{{date}}"@,
                "{{part_of}}"@,
                "{{timestamp}}"@,
            ),
            title,
            date,
            part_of,
            now,
        ) == pieces_filled(pieces, title, iso_text(date), part_of, timestamp_text(now)),
{
    lemma_placeholders();
    lemma_iso_clear(date);
    let day = iso_text(date);
    let time = timestamp_text(now);
    let (a, b, c, d) = ("{{title}}"@, "{{date}}"@, "{{part_of}}"@, "{{timestamp}}"@);
    assert(a[2] == 't' && b[2] == 'd' && c[2] == 'p' && d[2] == 't');
    assert(a[4] == 't' && d[4] == 'm');
    assert(a.contains(a[0]) && b.contains(b[0]) && c.contains(c[0]) && d.contains(d[0]));
    lemma_pieces_replaced(pieces, (a, b, c, d), (title, b, c, d), a, title);
    lemma_pieces_replaced(pieces, (title, b, c, d), (title, day, c, d), b, day);
    lemma_pieces_replaced(pieces, (title, day, c, d), (title, day, part_of, d), c, part_of);
    lemma_pieces_replaced(
        pieces,
        (title, day, part_of, d),
        (title, day, part_of, time),
        d,
        time,
    );
}

/// The template where none is set: the title, the date, the time of creation and the
/// parent as fields, and the title as a heading.
pub proof fn law_default_template()
    ensures
        default_template()
            == "---\ntitle: \"{{title}}\"\ndate: {{date}}\ncreated: {{timestamp}}\npart_of: \"{{part_of}}\"\n---\n\n# {{title}}\n\n"@,
{
}

// ---------------------------------------------------------------------------
// Spelling
// ---------------------------------------------------------------------------

/// The files of a date: `folder/YYYY/MM/YYYY-MM-DD.md`, the index of the month beside
/// it as `YYYY_month.md`, that of the year as `folder/YYYY/YYYY_index.md`, and
/// `folder/daily_index.md`.
pub proof fn law_paths_spelled(folder: Seq<char>, date: CalendarDate)
    requires
        folder.len() > 0,
    ensures
        ({
            let paths = paths_of(folder, date);
            let year = year_text(date.year as int);
            let month = two_digits(date.month as int);
            let day = two_digits(date.day as int);
            &&& paths.folder == folder
            &&& paths.daily_index == folder + "/"@ + "daily_index.md"@
            &&& paths.year_index == folder + "/"@ + year + "/"@ + year + "_index.md"@
            &&& paths.month_index == folder + "/"@ + year + "/"@ + month + "/"@ + year + "_"@
                + lowered(month_name(date.month as int)) + ".md"@
            &&& paths.entry == folder + "/"@ + year + "/"@ + month + "/"@ + year + "-"@ + month
                + "-"@ + day + ".md"@
        }),
{
    let paths = paths_of(folder, date);
    let year = year_text(date.year as int);
    let month = two_digits(date.month as int);
    let day = two_digits(date.day as int);
    assert(paths.year_index =~= folder + "/"@ + year + "/"@ + year + "_index.md"@);
    assert(paths.month_index =~= folder + "/"@ + year + "/"@ + month + "/"@ + year + "_"@ + lowered(
        month_name(date.month as int),
    ) + ".md"@);
    assert(paths.entry =~= folder + "/"@ + year + "/"@ + month + "/"@ + year + "-"@ + month + "-"@
        + day + ".md"@);
}

/// An entry is named by its month, its day of two digits and its year, a month index by
/// the month and the year.
pub proof fn law_titles_spelled(date: CalendarDate)
    ensures
        entry_title(date) == month_name(date.month as int) + " "@ + two_digits(date.day as int)
            + ", "@ + year_text(date.year as int),
        month_title(date) == month_name(date.month as int) + " "@ + year_text(date.year as int),
{
}

// ---------------------------------------------------------------------------
// Inputs
// ---------------------------------------------------------------------------

/// What the user writes is taken as `YYYY-MM-DD` where it can be read so; else as a
/// moment, which counts by its own date; else, where it is an everyday text, as an
/// English expression of the United States at the moment `now`.
pub proof fn law_input_order(text: Seq<char>, now: LocalDateTime)
    requires
        now.valid(),
    ensures
        match date_reading(text, "%Y-%m-%d"@) {
            Some(date) => any_input_date(text, now) == Some(date),
            None => match moment_reading(text) {
                Ok(moment) => any_input_date(text, now) == Some(moment.date),
                Err(_) => everyday(text) && text.len() < u32::MAX ==> any_input_date(text, now)
                    == english_reading(text, now, EnglishDialect::Us),
            },
        },
{
    if everyday(text) && text.len() < u32::MAX {
        law_everyday_plain(text, now);
    }
}

// ---------------------------------------------------------------------------
// Numbers
// ---------------------------------------------------------------------------

/// A number is written digit by digit, the last one at the end, in small letters from ten
/// on, and without zeros in front; with a sign where it is negative.
pub proof fn law_numeral(n: nat, d: int, base: nat)
    requires
        2 <= base <= 16,
        0 <= d < base,
    ensures
        numeral(d as nat, base) == seq!["0123456789abcdef"@[d]],
        n > 0 ==> numeral(n * base + d as nat, base) == numeral(n, base).push(
            "0123456789abcdef"@[d],
        ),
        signed_numeral(n as int) == numeral(n, 10),
        n > 0 ==> signed_numeral(-(n as int)) == seq!['-'] + numeral(n, 10),
{
    reveal_strlit("0123456789abcdef");
    assert(digit(d) == "0123456789abcdef"@[d]);
    let m = n * base + d as nat;
    if n > 0 {
        assert(m >= base) by (nonlinear_arith)
            requires
                n > 0,
                m == n * base + d as nat,
                d >= 0,
        ;
        lemma_fundamental_div_mod_converse(m as int, base as int, n as int, d);
        assert(m / base == n && m % base == d);
    }
}

/// A number with zeros in front takes at least the places that it is given, and is the
/// number behind the zeros.
pub proof fn law_padded(n: nat, width: nat)
    ensures
        ({
            let s = numeral(n, 10);
            let zeros: int = if s.len() < width {
                width - s.len()
            } else {
                0
            };
            &&& padded(n, width).len() == zeros + s.len()
            &&& padded(n, width).skip(zeros) == s
            &&& forall|i: int| 0 <= i < zeros ==> #[trigger] padded(n, width)[i] == '0'
        }),
{
}

// ---------------------------------------------------------------------------
// Characters and small texts
// ---------------------------------------------------------------------------

/// The characters that count as white space.
pub proof fn law_white_space(c: char)
    ensures
        is_space(c) <==> {
            let n = c as u32;
            0x9 <= n <= 0xd || n == 0x20 || n == 0x85 || n == 0xa0 || n == 0x1680 || 0x2000 <= n
                <= 0x200a || n == 0x2028 || n == 0x2029 || n == 0x202f || n == 0x205f || n == 0x3000
        },
{
}

/// Small letters take the place of the capitals of ASCII, and nothing else changes.
pub proof fn law_lowered(s: Seq<char>, i: int)
    requires
        0 <= i < s.len(),
    ensures
        lowered(s).len() == s.len(),
        0x41 <= s[i] as u32 <= 0x5a ==> lowered(s)[i] as u32 == s[i] as u32 + 32,
        !(0x41 <= s[i] as u32 <= 0x5a) ==> lowered(s)[i] == s[i],
{
}

/// What the user leaves out stands for `today`.
pub proof fn law_input_text(text: Seq<char>)
    ensures
        input_text(None) == "today"@,
        input_text(Some(text)) == text,
{
}

/// The messages for a text that is no date and for a path that is no daily entry.
pub proof fn law_messages(text: String)
    ensures
        DailyError::InvalidDate(text).message_text() == "Invalid date format: "@ + text@,
        DailyError::NotDailyPath.message_text() == "Path is not a daily entry path"@,
{
}

} // verus!
