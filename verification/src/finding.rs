//! How the index files lead to the days of a month.

use vstd::prelude::*;

use crate::daily_logic::{
    date_of_last_part, date_of_name, date_of_path, entry_path, law_effective_folder, law_entry_date,
    law_name_date, lemma_iso_slashless, lemma_last_part, named_after, path_parts, paths_of, scoped,
};
use crate::date::{iso_text, two_digits, year_text, CalendarDate};
use crate::entries::StateView;
use crate::files::{lemma_usual_year, lists_day, usual_year};
use crate::frontmatter::{markdown_reading, sequence_of, Field};
use crate::listing::{
    days_found, days_up_to, filed_days, first_of_month, first_of_year, law_listed_days,
    lemma_days_up_to, listed_date, listed_days, month_folder, month_index_found, of_month, of_year, resolved, tree_days,
};
use crate::session::{files_asked, Answer, Ask, Outcome, Talk};
use crate::text::{occurs, occurs_at, padded, signed_numeral};

verus! {

/// Whether the next reply is a file with these fields.
pub open spec fn shows(s: Talk, fields: Seq<(Seq<char>, Field)>) -> bool {
    s.reply() matches Some(Answer::Content(Ok(text))) && (markdown_reading(text) matches Ok(file)
        && file.0 == fields)
}

/// Whether a path holds one of two texts.
pub open spec fn holds(path: Seq<char>, a: Seq<char>, b: Seq<char>) -> bool {
    occurs(path, a) || occurs(path, b)
}

/// Whether item `k` of contents is the first whose path holds one of two texts.
pub open spec fn first_holds(
    contents: Seq<Seq<char>>,
    parent: Seq<char>,
    k: int,
    a: Seq<char>,
    b: Seq<char>,
) -> bool {
    &&& 0 <= k < contents.len()
    &&& holds(resolved(contents[k], parent), a, b)
    &&& forall|i: int| 0 <= i < k ==> !holds(resolved(#[trigger] contents[i], parent), a, b)
}

/// Whether no item of contents has a path that holds one of two texts.
pub open spec fn none_holds(
    contents: Seq<Seq<char>>,
    parent: Seq<char>,
    a: Seq<char>,
    b: Seq<char>,
) -> bool {
    forall|i: int|
        0 <= i < contents.len() ==> !holds(resolved(#[trigger] contents[i], parent), a, b)
}

/// The way to a year: through its folder, or to a file that starts with the year.
pub open spec fn year_way(year: int) -> (Seq<char>, Seq<char>) {
    ("/"@ + signed_numeral(year) + "/"@, "/"@ + signed_numeral(year) + "_"@)
}

/// The way to a month: through its folder.
pub open spec fn month_way(month: nat) -> Seq<char> {
    "/"@ + padded(month, 2) + "/"@
}

/// The index of a year is the first of the contents whose path leads to the year.
pub proof fn law_first_of_year(contents: Seq<Seq<char>>, parent: Seq<char>, year: int, k: int)
    ensures
        first_holds(contents, parent, k, year_way(year).0, year_way(year).1) ==> first_of_year(
            contents,
            parent,
            year,
        ) == Some(resolved(contents[k], parent)),
        none_holds(contents, parent, year_way(year).0, year_way(year).1) ==> first_of_year(
            contents,
            parent,
            year,
        ) is None,
    decreases contents.len(),
{
    let (a, b) = year_way(year);
    if contents.len() > 0 {
        let rest = contents.drop_first();
        law_first_of_year(rest, parent, year, k - 1);
        assert(holds(resolved(contents[0], parent), a, b) == of_year(
            resolved(contents[0], parent),
            year,
        ));
        if none_holds(contents, parent, a, b) {
            assert forall|i: int| 0 <= i < rest.len() implies !holds(
                resolved(#[trigger] rest[i], parent),
                a,
                b,
            ) by {
                assert(rest[i] == contents[i + 1]);
            }
        }
        if first_holds(contents, parent, k, a, b) && k > 0 {
            assert(rest[k - 1] == contents[k]);
            assert forall|i: int| 0 <= i < k - 1 implies !holds(
                resolved(#[trigger] rest[i], parent),
                a,
                b,
            ) by {
                assert(rest[i] == contents[i + 1]);
            }
            assert(!holds(resolved(contents[0], parent), a, b));
        }
    }
}

/// The index of a month is the first of the contents whose path leads to the month.
pub proof fn law_first_of_month(contents: Seq<Seq<char>>, parent: Seq<char>, month: nat, k: int)
    ensures
        first_holds(contents, parent, k, month_way(month), month_way(month)) ==> first_of_month(
            contents,
            parent,
            month,
        ) == Some(resolved(contents[k], parent)),
        none_holds(contents, parent, month_way(month), month_way(month)) ==> first_of_month(
            contents,
            parent,
            month,
        ) is None,
    decreases contents.len(),
{
    let a = month_way(month);
    if contents.len() > 0 {
        let rest = contents.drop_first();
        law_first_of_month(rest, parent, month, k - 1);
        assert(holds(resolved(contents[0], parent), a, a) == of_month(
            resolved(contents[0], parent),
            month,
        ));
        if none_holds(contents, parent, a, a) {
            assert forall|i: int| 0 <= i < rest.len() implies !holds(
                resolved(#[trigger] rest[i], parent),
                a,
                a,
            ) by {
                assert(rest[i] == contents[i + 1]);
            }
        }
        if first_holds(contents, parent, k, a, a) && k > 0 {
            assert(rest[k - 1] == contents[k]);
            assert forall|i: int| 0 <= i < k - 1 implies !holds(
                resolved(#[trigger] rest[i], parent),
                a,
                a,
            ) by {
                assert(rest[i] == contents[i + 1]);
            }
            assert(!holds(resolved(contents[0], parent), a, a));
        }
    }
}

/// The index files of a date lie on the way to its year and its month.
pub proof fn law_indexes_on_the_way(folder: Seq<char>, date: CalendarDate)
    requires
        folder.len() > 0,
        usual_year(date.year as int),
    ensures
        holds(
            paths_of(folder, date).year_index,
            year_way(date.year as int).0,
            year_way(date.year as int).1,
        ),
        holds(
            paths_of(folder, date).month_index,
            month_way(date.month as nat),
            month_way(date.month as nat),
        ),
{
    lemma_usual_year(date.year as int);
    let paths = paths_of(folder, date);
    let year = year_text(date.year as int);
    let month = two_digits(date.month as int);
    let a = year_way(date.year as int).0;
    let n = folder.len() as int;
    assert(paths.year_index.subrange(n, n + a.len()) =~= a);
    assert(occurs_at(paths.year_index, a, n));
    let b = month_way(date.month as nat);
    let m = n + "/"@.len() + year.len();
    assert(paths.month_index.subrange(m, m + b.len()) =~= b);
    assert(occurs_at(paths.month_index, b, m));
}

/// The days of a month are found by way of the daily index, the index of the year and
/// the index of the month: whatever day the last of them lists is among them.
pub proof fn law_tree_leads(
    s: Talk,
    st: StateView,
    year: int,
    month: nat,
    top: Seq<(Seq<char>, Field)>,
    k: int,
    mid: Seq<(Seq<char>, Field)>,
    j: int,
    text: Seq<char>,
    day: u32,
)
    requires
        ({
            let daily = st.folder() + "/"@ + "daily_index.md"@;
            let years = sequence_of(top, "contents"@);
            let months = sequence_of(mid, "contents"@);
            let year_index = resolved(years[k], daily);
            &&& shows(s, top)
            &&& first_holds(years, daily, k, year_way(year).0, year_way(year).1)
            &&& shows(s.noted(Ask::Read(st.at(daily))), mid)
            &&& first_holds(months, year_index, j, month_way(month), month_way(month))
        }),
    ensures
        ({
            let daily = st.folder() + "/"@ + "daily_index.md"@;
            let year_index = resolved(sequence_of(top, "contents"@)[k], daily);
            let index = resolved(sequence_of(mid, "contents"@)[j], year_index);
            let t = s.noted(Ask::Read(st.at(daily))).noted(Ask::Read(st.at(year_index)));
            &&& month_index_found(s, st, year, month) == (t, Outcome::Got(Some(index)))
            &&& t.reply() == Some(Answer::Content(Ok(text))) && lists_day(
                text,
                index,
                year,
                month as int,
                day,
            ) && 1 <= day <= 31 ==> (days_found(s, st, year, month).1 matches Outcome::Got(days)
                ==> days.contains(day))
        }),
{
    let daily = st.folder() + "/"@ + "daily_index.md"@;
    let years = sequence_of(top, "contents"@);
    let months = sequence_of(mid, "contents"@);
    let year_index = resolved(years[k], daily);
    let index = resolved(months[j], year_index);
    law_effective_folder(st.config.entry_folder);
    law_first_of_year(years, daily, year, k);
    law_first_of_month(months, year_index, month, j);
    let t = s.noted(Ask::Read(st.at(daily))).noted(Ask::Read(st.at(year_index)));
    assert(month_index_found(s, st, year, month) == (t, Outcome::Got(Some(index))));
    if t.reply() == Some(Answer::Content(Ok(text))) && lists_day(text, index, year, month as int, day)
        && 1 <= day <= 31 && days_found(s, st, year, month).1 is Got {
        let file = markdown_reading(text)->Ok_0;
        let contents = sequence_of(file.0, "contents"@);
        law_listed_days(contents, index, year, month as int, day);
        let tree = listed_days(contents, index, year, month as int);
        let (s1, o1) = tree_days(s, st, year, month);
        assert(o1 == Outcome::Got(tree));
        let (u, o2) = files_asked(s1, st.at(month_folder(st.folder(), year, month)));
        let all = match o2 {
            Outcome::Got(list) => tree + filed_days(list, year, month as int),
            _ => tree,
        };
        let i = tree.index_of(day);
        assert(all[i] == day);
        lemma_days_up_to(all, 31);
        assert(days_found(s, st, year, month).1->Got_0 == days_up_to(all, 31));
    }
}

/// Where no index leads on, none is found, and nothing more is read.
pub proof fn law_tree_ends(
    s: Talk,
    st: StateView,
    year: int,
    month: nat,
    top: Seq<(Seq<char>, Field)>,
    k: int,
    mid: Seq<(Seq<char>, Field)>,
)
    requires
        shows(s, top),
    ensures
        ({
            let daily = st.folder() + "/"@ + "daily_index.md"@;
            let years = sequence_of(top, "contents"@);
            let months = sequence_of(mid, "contents"@);
            let year_index = resolved(years[k], daily);
            let s1 = s.noted(Ask::Read(st.at(daily)));
            &&& none_holds(years, daily, year_way(year).0, year_way(year).1) ==> month_index_found(
                s,
                st,
                year,
                month,
            ) == (s1, Outcome::<Option<Seq<char>>>::Got(None))
            &&& first_holds(years, daily, k, year_way(year).0, year_way(year).1) && shows(s1, mid)
                && none_holds(months, year_index, month_way(month), month_way(month))
                ==> month_index_found(s, st, year, month) == (
                s1.noted(Ask::Read(st.at(year_index))),
                Outcome::<Option<Seq<char>>>::Got(None),
            )
        }),
{
    let daily = st.folder() + "/"@ + "daily_index.md"@;
    let years = sequence_of(top, "contents"@);
    let months = sequence_of(mid, "contents"@);
    law_effective_folder(st.config.entry_folder);
    law_first_of_year(years, daily, year, k);
    law_first_of_month(months, resolved(years[k], daily), month, 0);
}

/// A file that is named after a date counts as of that date in every folder, and so does
/// the entry of the date. No other file counts as of a date.
pub proof fn law_listed_date(folder: Seq<char>, date: CalendarDate, path: Seq<char>)
    requires
        date.valid(),
    ensures
        listed_date(iso_text(date) + ".md"@) == Some(date),
        listed_date(folder + "/"@ + (iso_text(date) + ".md"@)) == Some(date),
        listed_date(scoped(folder, entry_path(date))) == Some(date),
        listed_date(path) matches Some(d) ==> d.valid() && path_parts(path).len() > 0
            && path_parts(path).last() == iso_text(d) + ".md"@,
{
    reveal_strlit("/");
    assert("/"@ =~= seq!['/']);
    let file = iso_text(date) + ".md"@;
    lemma_iso_slashless(date);
    lemma_last_part(folder, file);
    law_entry_date(folder, date);
    assert(named_after(file, date));
    law_name_date(file, date);
    lemma_date_named(file);
    lemma_date_named(folder + "/"@ + file);
    lemma_date_named(path);
}

/// The date of a path is that of the name of its file.
proof fn lemma_date_named(path: Seq<char>)
    ensures
        date_of_path(path) is Some ==> date_of_path(path) == date_of_last_part(path),
        date_of_last_part(path) matches Some(d) ==> d.valid() && path_parts(path).len() > 0
            && path_parts(path).last() == iso_text(d) + ".md"@,
{
    let parts = path_parts(path);
    if parts.len() > 0 {
        assert(parts.last() == parts[parts.len() - 1]);
        if date_of_name(parts.last()) is Some {
            let d = choose|d: CalendarDate| named_after(parts.last(), d);
            assert(named_after(parts.last(), d));
        }
    }
}

} // verus!
