//! Which days of a month have an entry.

use vstd::prelude::*;

use crate::daily_logic::{
    date_from_filename, date_of_last_part, date_of_path, path_to_date, scoped, scoped_path,
};
use crate::date::CalendarDate;
use crate::entries::{markdown_asked, opt_outcome, read_parsed, DailyState, StateView};
use crate::frontmatter::{ensure_sequence, sequence_of};
use crate::session::{files_asked, stopped, texts_outcome, Outcome, Session, Stop, Talk};
use crate::text::{
    concat, contains, occurs, padded, signed_numeral, views, write_padded, write_signed,
};
use crate::workspace::{link_target, resolve_link_path, resolved_with};

verus! {

// ---------------------------------------------------------------------------
// The index of a month
// ---------------------------------------------------------------------------

/// The workspace path of an entry of contents.
pub open spec fn resolved(entry: Seq<char>, parent: Seq<char>) -> Seq<char> {
    resolved_with(entry, parent, link_target(entry))
}

/// Whether a path leads through the folder of a year, or to a file that starts
/// with the year.
pub open spec fn of_year(path: Seq<char>, year: int) -> bool {
    occurs(path, "/"@ + signed_numeral(year) + "/"@) || occurs(
        path,
        "/"@ + signed_numeral(year) + "_"@,
    )
}

/// Whether a path leads through the folder of a month.
pub open spec fn of_month(path: Seq<char>, month: nat) -> bool {
    occurs(path, "/"@ + padded(month, 2) + "/"@)
}

/// The first of the contents that belongs to a year.
pub open spec fn first_of_year(contents: Seq<Seq<char>>, parent: Seq<char>, year: int) -> Option<
    Seq<char>,
>
    decreases contents.len(),
{
    if contents.len() == 0 {
        None
    } else if of_year(resolved(contents[0], parent), year) {
        Some(resolved(contents[0], parent))
    } else {
        first_of_year(contents.drop_first(), parent, year)
    }
}

/// The first of the contents that belongs to a month.
pub open spec fn first_of_month(contents: Seq<Seq<char>>, parent: Seq<char>, month: nat) -> Option<
    Seq<char>,
>
    decreases contents.len(),
{
    if contents.len() == 0 {
        None
    } else if of_month(resolved(contents[0], parent), month) {
        Some(resolved(contents[0], parent))
    } else {
        first_of_month(contents.drop_first(), parent, month)
    }
}

/// Reads the contents of an index.
pub open spec fn contents_asked(s: Talk, path: Seq<char>) -> (Talk, Outcome<Seq<Seq<char>>>) {
    let (s1, o) = markdown_asked(s, path);
    match o {
        Outcome::Got(file) => (s1, Outcome::Got(sequence_of(file.0, "contents"@))),
        _ => (s1, stopped(o)),
    }
}

/// Finds the index of a month: from the index of the hierarchy to that of the
/// year, and from there to that of the month.
pub open spec fn month_index_found(s: Talk, st: StateView, year: int, month: nat) -> (
    Talk,
    Outcome<Option<Seq<char>>>,
) {
    let daily_index = scoped(st.folder(), "daily_index.md"@);
    let (s1, o1) = contents_asked(s, st.at(daily_index));
    match o1 {
        Outcome::Got(contents) => match first_of_year(contents, daily_index, year) {
            Some(year_index) => {
                let (s2, o2) = contents_asked(s1, st.at(year_index));
                match o2 {
                    Outcome::Got(months) => (
                        s2,
                        Outcome::Got(first_of_month(months, year_index, month)),
                    ),
                    _ => (s2, stopped(o2)),
                }
            },
            None => (s1, Outcome::Got(None)),
        },
        _ => (s1, stopped(o1)),
    }
}

fn read_contents(session: &mut Session, fs_path: &str) -> (r: Result<Vec<String>, Stop>)
    ensures
        (final(session)@, texts_outcome(r)) == contents_asked(old(session)@, fs_path@),
{
    match read_parsed(session, fs_path) {
        Ok((fields, _body)) => Ok(ensure_sequence(&fields, "contents")),
        Err(stop) => Err(stop),
    }
}

fn find_year_index(entries: &Vec<String>, parent: &str, year: i32) -> (r: Option<String>)
    ensures
        match first_of_year(views(entries@), parent@, year as int) {
            Some(p) => r matches Some(s) && s@ == p,
            None => r is None,
        },
{
    let ghost all = views(entries@);
    let start = concat("/", write_signed(year).as_str());
    let folder = concat(start.as_str(), "/");
    let file = concat(start.as_str(), "_");
    let mut i: usize = 0;
    assert(all.skip(0) =~= all);
    while i < entries.len()
        invariant
            i <= entries@.len(),
            all == views(entries@),
            folder@ == "/"@ + signed_numeral(year as int) + "/"@,
            file@ == "/"@ + signed_numeral(year as int) + "_"@,
            first_of_year(all.skip(i as int), parent@, year as int) == first_of_year(
                all,
                parent@,
                year as int,
            ),
        decreases entries@.len() - i,
    {
        assert(all.skip(i as int)[0] == entries@[i as int]@);
        assert(all.skip(i as int).drop_first() =~= all.skip(i + 1));
        let path = resolve_link_path(entries[i].as_str(), parent);
        if contains(path.as_str(), folder.as_str()) || contains(path.as_str(), file.as_str()) {
            return Some(path);
        }
        i = i + 1;
    }
    None
}

fn find_month_index(entries: &Vec<String>, parent: &str, month: u32) -> (r: Option<String>)
    ensures
        match first_of_month(views(entries@), parent@, month as nat) {
            Some(p) => r matches Some(s) && s@ == p,
            None => r is None,
        },
{
    let ghost all = views(entries@);
    let folder = concat(concat("/", write_padded(month as u64, 2).as_str()).as_str(), "/");
    let mut i: usize = 0;
    assert(all.skip(0) =~= all);
    while i < entries.len()
        invariant
            i <= entries@.len(),
            all == views(entries@),
            folder@ == "/"@ + padded(month as nat, 2) + "/"@,
            first_of_month(all.skip(i as int), parent@, month as nat) == first_of_month(
                all,
                parent@,
                month as nat,
            ),
        decreases entries@.len() - i,
    {
        assert(all.skip(i as int)[0] == entries@[i as int]@);
        assert(all.skip(i as int).drop_first() =~= all.skip(i + 1));
        let path = resolve_link_path(entries[i].as_str(), parent);
        if contains(path.as_str(), folder.as_str()) {
            return Some(path);
        }
        i = i + 1;
    }
    None
}

/// Walks from the index of the hierarchy to that of a month; nothing where an
/// index does not lead on. Fails where one cannot be read.
pub fn find_month_index_via_tree(
    session: &mut Session,
    state: &DailyState,
    year: i32,
    month: u32,
) -> (r: Result<Option<String>, Stop>)
    ensures
        (final(session)@, opt_outcome(r)) == month_index_found(
            old(session)@,
            state@,
            year as int,
            month as nat,
        ),
{
    let folder = state.config.effective_entry_folder();
    let daily_index = scoped_path(folder.as_str(), "daily_index.md");
    let daily_fs = state.at(daily_index.as_str());
    let years = match read_contents(session, daily_fs.as_str()) {
        Ok(contents) => contents,
        Err(stop) => return Err(stop),
    };
    let year_index = match find_year_index(&years, daily_index.as_str(), year) {
        Some(path) => path,
        None => return Ok(None),
    };
    let year_fs = state.at(year_index.as_str());
    let months = match read_contents(session, year_fs.as_str()) {
        Ok(contents) => contents,
        Err(stop) => return Err(stop),
    };
    Ok(find_month_index(&months, year_index.as_str(), month))
}

// ---------------------------------------------------------------------------
// The days of a month
// ---------------------------------------------------------------------------

/// The date that a path gives: as the path of an entry, else by the name of the
/// file alone.
pub open spec fn listed_date(path: Seq<char>) -> Option<CalendarDate> {
    match date_of_path(path) {
        Some(date) => Some(date),
        None => date_of_last_part(path),
    }
}

/// The days with one more, where a date is in the month.
pub open spec fn with_day(days: Seq<u32>, date: Option<CalendarDate>, year: int, month: int) -> Seq<
    u32,
> {
    match date {
        Some(d) => if d.year == year && d.month == month {
            days.push(d.day)
        } else {
            days
        },
        None => days,
    }
}

/// The days of a month among the contents of its index.
pub open spec fn listed_days(
    contents: Seq<Seq<char>>,
    parent: Seq<char>,
    year: int,
    month: int,
) -> Seq<u32>
    decreases contents.len(),
{
    if contents.len() == 0 {
        Seq::empty()
    } else {
        with_day(
            listed_days(contents.drop_last(), parent, year, month),
            listed_date(resolved(contents.last(), parent)),
            year,
            month,
        )
    }
}

/// The days of a month among the paths of files.
pub open spec fn filed_days(files: Seq<Seq<char>>, year: int, month: int) -> Seq<u32>
    decreases files.len(),
{
    if files.len() == 0 {
        Seq::empty()
    } else {
        with_day(
            filed_days(files.drop_last(), year, month),
            date_of_path(files.last()),
            year,
            month,
        )
    }
}

/// Reads the days of a month in its index.
pub open spec fn index_days(s: Talk, st: StateView, index: Seq<char>, year: int, month: int) -> (
    Talk,
    Outcome<Seq<u32>>,
) {
    let (s1, o1) = markdown_asked(s, st.at(index));
    match o1 {
        Outcome::Got(file) => (
            s1,
            Outcome::Got(listed_days(sequence_of(file.0, "contents"@), index, year, month)),
        ),
        _ => (s1, stopped(o1)),
    }
}

/// The outcome of a result that is days.
pub open spec fn days_outcome(r: Result<Vec<u32>, Stop>) -> Outcome<Seq<u32>> {
    match r {
        Ok(days) => Outcome::Got(days@),
        Err(Stop::Fail(message)) => Outcome::Failed(message@),
        Err(Stop::Ask(action)) => Outcome::Waiting(action@),
    }
}

/// Whether all of these are days that a month can have.
pub open spec fn month_days_only(days: Seq<u32>) -> bool {
    forall|i: int| 0 <= i < days.len() ==> 1 <= #[trigger] days[i] <= 31
}

/// The days of a month in its index.
pub fn dates_from_month_index(
    session: &mut Session,
    state: &DailyState,
    month_index_rel: &str,
    year: i32,
    month: u32,
) -> (r: Result<Vec<u32>, Stop>)
    ensures
        (final(session)@, days_outcome(r)) == index_days(
            old(session)@,
            state@,
            month_index_rel@,
            year as int,
            month as int,
        ),
        r matches Ok(days) ==> month_days_only(days@),
{
    let fs_path = state.at(month_index_rel);
    let (fields, _body) = match read_parsed(session, fs_path.as_str()) {
        Ok(file) => file,
        Err(stop) => return Err(stop),
    };
    let contents = ensure_sequence(&fields, "contents");
    let ghost all = views(contents@);
    let mut days: Vec<u32> = Vec::new();
    let mut i: usize = 0;
    assert(all.take(0) =~= Seq::empty());
    while i < contents.len()
        invariant
            i <= contents@.len(),
            all == views(contents@),
            days@ == listed_days(all.take(i as int), month_index_rel@, year as int, month as int),
            month_days_only(days@),
        decreases contents@.len() - i,
    {
        let ghost part = all.take(i + 1);
        assert(part.drop_last() =~= all.take(i as int));
        assert(part.last() == contents@[i as int]@);
        let path = resolve_link_path(contents[i].as_str(), month_index_rel);
        let date = match path_to_date(path.as_str()) {
            Ok(date) => Ok(date),
            Err(_) => date_from_filename(path.as_str()),
        };
        if let Ok(date) = date {
            if date.year == year && date.month == month {
                days.push(date.day);
            }
        }
        i = i + 1;
    }
    assert(all.take(i as int) =~= all);
    Ok(days)
}

/// The days of a month among the paths of files, added to others.
pub fn days_of_files(files: &Vec<String>, year: i32, month: u32) -> (days: Vec<u32>)
    ensures
        days@ == filed_days(views(files@), year as int, month as int),
        month_days_only(days@),
{
    let ghost all = views(files@);
    let mut days: Vec<u32> = Vec::new();
    let mut i: usize = 0;
    assert(all.take(0) =~= Seq::empty());
    while i < files.len()
        invariant
            i <= files@.len(),
            all == views(files@),
            days@ == filed_days(all.take(i as int), year as int, month as int),
            month_days_only(days@),
        decreases files@.len() - i,
    {
        let ghost part = all.take(i + 1);
        assert(part.drop_last() =~= all.take(i as int));
        assert(part.last() == files@[i as int]@);
        if let Ok(date) = path_to_date(files[i].as_str()) {
            if date.year == year && date.month == month {
                days.push(date.day);
            }
        }
        i = i + 1;
    }
    assert(all.take(i as int) =~= all);
    days
}

/// The days up to `n` that occur in a list, in order.
pub open spec fn days_up_to(days: Seq<u32>, n: nat) -> Seq<u32>
    decreases n,
{
    if n == 0 {
        Seq::empty()
    } else {
        let before = days_up_to(days, (n - 1) as nat);
        if days.contains(n as u32) {
            before.push(n as u32)
        } else {
            before
        }
    }
}

/// The days of a list in order, each once.
pub open spec fn ordered_days(days: Seq<u32>) -> Seq<u32> {
    days_up_to(days, 31)
}

fn has_day(days: &Vec<u32>, day: u32) -> (r: bool)
    ensures
        r == days@.contains(day),
{
    let mut i: usize = 0;
    while i < days.len()
        invariant
            i <= days@.len(),
            forall|k: int| 0 <= k < i ==> days@[k] != day,
        decreases days@.len() - i,
    {
        if days[i] == day {
            return true;
        }
        i = i + 1;
    }
    false
}

/// Brings days into order, each once.
pub fn order_days(days: &Vec<u32>) -> (r: Vec<u32>)
    requires
        month_days_only(days@),
    ensures
        r@ == ordered_days(days@),
{
    let mut out: Vec<u32> = Vec::new();
    let mut day: u32 = 0;
    while day < 31
        invariant
            day <= 31,
            out@ == days_up_to(days@, day as nat),
        decreases 31 - day,
    {
        day = day + 1;
        if has_day(days, day) {
            out.push(day);
        }
    }
    out
}

/// The days up to `n` come in order, and are those of the list.
pub proof fn lemma_days_up_to(days: Seq<u32>, n: nat)
    requires
        n <= 31,
    ensures
        forall|i: int| 0 <= i < days_up_to(days, n).len() ==> 1 <= #[trigger] days_up_to(days, n)[i]
            <= n,
        forall|i: int, j: int|
            0 <= i < j < days_up_to(days, n).len() ==> days_up_to(days, n)[i] < days_up_to(
                days,
                n,
            )[j],
        forall|d: u32|
            #![trigger days_up_to(days, n).contains(d)]
            days_up_to(days, n).contains(d) <==> days.contains(d) && 1 <= d <= n,
    decreases n,
{
    if n > 0 {
        let m = (n - 1) as nat;
        let before = days_up_to(days, m);
        let all = days_up_to(days, n);
        lemma_days_up_to(days, m);
        assert forall|d: u32| #![trigger all.contains(d)] all.contains(d) <==> days.contains(d) && 1
            <= d <= n by {
            if before.contains(d) {
                let i = before.index_of(d);
                assert(all[i] == d);
            }
            if all.contains(d) {
                let i = all.index_of(d);
                if i < before.len() {
                    assert(before[i] == d);
                    assert(before.contains(d));
                }
            }
            if days.contains(n as u32) {
                assert(all[all.len() - 1] == n as u32);
            }
        }
    }
}

/// The days that are listed come in order, none twice, and none that was found
/// is lost.
pub proof fn law_days_ordered(days: Seq<u32>)
    requires
        month_days_only(days),
    ensures
        forall|i: int, j: int|
            0 <= i < j < ordered_days(days).len() ==> ordered_days(days)[i] < ordered_days(
                days,
            )[j],
        forall|d: u32|
            #![trigger ordered_days(days).contains(d)]
            ordered_days(days).contains(d) <==> days.contains(d),
{
    lemma_days_up_to(days, 31);
    assert forall|d: u32|
        #![trigger ordered_days(days).contains(d)]
        ordered_days(days).contains(d) <==> days.contains(d) by {
        if days.contains(d) {
            let i = days.index_of(d);
            assert(1 <= days[i] <= 31);
        }
    }
}

/// Exactly the days of the month are found among the paths of files.
pub proof fn law_filed_days(files: Seq<Seq<char>>, year: int, month: int, day: u32)
    ensures
        filed_days(files, year, month).contains(day) <==> exists|i: int|
            0 <= i < files.len() && is_day(date_of_path(#[trigger] files[i]), year, month, day),
    decreases files.len(),
{
    if files.len() > 0 {
        let rest = files.drop_last();
        let before = filed_days(rest, year, month);
        let all = filed_days(files, year, month);
        law_filed_days(rest, year, month, day);
        lemma_with_day(before, date_of_path(files.last()), year, month, day);
        if before.contains(day) {
            let i = choose|i: int|
                0 <= i < rest.len() && is_day(date_of_path(#[trigger] rest[i]), year, month, day);
            assert(files[i] == rest[i]);
        }
        if is_day(date_of_path(files.last()), year, month, day) {
            assert(files[files.len() - 1] == files.last());
        }
        if exists|i: int|
            0 <= i < files.len() && is_day(date_of_path(#[trigger] files[i]), year, month, day) {
            let i = choose|i: int|
                0 <= i < files.len() && is_day(date_of_path(#[trigger] files[i]), year, month, day);
            if i < rest.len() {
                assert(rest[i] == files[i]);
            }
        }
    }
}

/// Exactly the days of the month are found among the contents of an index.
pub proof fn law_listed_days(
    contents: Seq<Seq<char>>,
    parent: Seq<char>,
    year: int,
    month: int,
    day: u32,
)
    ensures
        listed_days(contents, parent, year, month).contains(day) <==> exists|i: int|
            0 <= i < contents.len() && is_day(
                listed_date(resolved(#[trigger] contents[i], parent)),
                year,
                month,
                day,
            ),
    decreases contents.len(),
{
    if contents.len() > 0 {
        let rest = contents.drop_last();
        let before = listed_days(rest, parent, year, month);
        law_listed_days(rest, parent, year, month, day);
        lemma_with_day(
            before,
            listed_date(resolved(contents.last(), parent)),
            year,
            month,
            day,
        );
        if before.contains(day) {
            let i = choose|i: int|
                0 <= i < rest.len() && is_day(
                    listed_date(resolved(#[trigger] rest[i], parent)),
                    year,
                    month,
                    day,
                );
            assert(contents[i] == rest[i]);
        }
        if is_day(listed_date(resolved(contents.last(), parent)), year, month, day) {
            assert(contents[contents.len() - 1] == contents.last());
        }
        if exists|i: int|
            0 <= i < contents.len() && is_day(
                listed_date(resolved(#[trigger] contents[i], parent)),
                year,
                month,
                day,
            ) {
            let i = choose|i: int|
                0 <= i < contents.len() && is_day(
                    listed_date(resolved(#[trigger] contents[i], parent)),
                    year,
                    month,
                    day,
                );
            if i < rest.len() {
                assert(rest[i] == contents[i]);
            }
        }
    }
}

/// Whether a date is a day of a month.
pub open spec fn is_day(date: Option<CalendarDate>, year: int, month: int, day: u32) -> bool {
    date matches Some(d) && d.year == year && d.month == month && d.day == day
}

proof fn lemma_with_day(
    days: Seq<u32>,
    date: Option<CalendarDate>,
    year: int,
    month: int,
    day: u32,
)
    ensures
        with_day(days, date, year, month).contains(day) <==> days.contains(day) || is_day(
            date,
            year,
            month,
            day,
        ),
{
    let all = with_day(days, date, year, month);
    if days.contains(day) {
        let i = days.index_of(day);
        assert(all[i] == day);
    }
    if is_day(date, year, month, day) {
        assert(all[all.len() - 1] == day);
    }
    if all.contains(day) {
        let i = all.index_of(day);
        if i < days.len() {
            assert(days[i] == day);
        }
    }
}

// ---------------------------------------------------------------------------
// All days of a month
// ---------------------------------------------------------------------------

/// The days that the index files lead to; none where they lead nowhere.
pub open spec fn tree_days(s: Talk, st: StateView, year: int, month: nat) -> (
    Talk,
    Outcome<Seq<u32>>,
) {
    let (s1, o1) = month_index_found(s, st, year, month);
    match o1 {
        Outcome::Got(Some(index)) => {
            let (s2, o2) = index_days(s1, st, index, year, month as int);
            match o2 {
                Outcome::Failed(_) => (s2, Outcome::Got(Seq::empty())),
                _ => (s2, o2),
            }
        },
        Outcome::Waiting(ask) => (s1, Outcome::Waiting(ask)),
        _ => (s1, Outcome::Got(Seq::empty())),
    }
}

/// The folder of the entries of a month.
pub open spec fn month_folder(folder: Seq<char>, year: int, month: nat) -> Seq<char> {
    folder + "/"@ + signed_numeral(year) + "/"@ + padded(month, 2) + "/"@
}

/// The days of a month with an entry: those that the index files lead to, and
/// those whose files are there.
pub open spec fn days_found(s: Talk, st: StateView, year: int, month: nat) -> (
    Talk,
    Outcome<Seq<u32>>,
) {
    let (s1, o1) = tree_days(s, st, year, month);
    match o1 {
        Outcome::Got(days) => {
            let (s2, o2) = files_asked(s1, st.at(month_folder(st.folder(), year, month)));
            match o2 {
                Outcome::Got(files) => (
                    s2,
                    Outcome::Got(ordered_days(days + filed_days(files, year, month as int))),
                ),
                Outcome::Failed(_) => (s2, Outcome::Got(ordered_days(days))),
                Outcome::Waiting(ask) => (s2, Outcome::Waiting(ask)),
            }
        },
        _ => (s1, stopped(o1)),
    }
}

fn find_tree_days(session: &mut Session, state: &DailyState, year: i32, month: u32) -> (r: Result<
    Vec<u32>,
    Stop,
>)
    ensures
        (final(session)@, days_outcome(r)) == tree_days(
            old(session)@,
            state@,
            year as int,
            month as nat,
        ),
        r matches Ok(days) ==> month_days_only(days@),
{
    match find_month_index_via_tree(session, state, year, month) {
        Ok(Some(index)) => match dates_from_month_index(
            session,
            state,
            index.as_str(),
            year,
            month,
        ) {
            Ok(days) => Ok(days),
            Err(Stop::Fail(_)) => {
                let none: Vec<u32> = Vec::new();
                assert(none@ =~= Seq::empty());
                Ok(none)
            },
            Err(Stop::Ask(action)) => Err(Stop::Ask(action)),
        },
        Err(Stop::Ask(action)) => Err(Stop::Ask(action)),
        _ => {
            let none: Vec<u32> = Vec::new();
            assert(none@ =~= Seq::empty());
            Ok(none)
        },
    }
}

/// The days of a month with an entry, in order.
pub fn find_days(session: &mut Session, state: &DailyState, year: i32, month: u32) -> (r: Result<
    Vec<u32>,
    Stop,
>)
    ensures
        (final(session)@, days_outcome(r)) == days_found(
            old(session)@,
            state@,
            year as int,
            month as nat,
        ),
{
    let mut days = match find_tree_days(session, state, year, month) {
        Ok(days) => days,
        Err(stop) => return Err(stop),
    };
    let folder = state.config.effective_entry_folder();
    let mut prefix = folder;
    prefix.append("/");
    prefix.append(write_signed(year).as_str());
    prefix.append("/");
    prefix.append(write_padded(month as u64, 2).as_str());
    prefix.append("/");
    let fs_prefix = state.at(prefix.as_str());
    match session.list_files(fs_prefix.as_str()) {
        Ok(files) => {
            let mut filed = days_of_files(&files, year, month);
            days.append(&mut filed);
            Ok(order_days(&days))
        },
        Err(Stop::Fail(_)) => Ok(order_days(&days)),
        Err(Stop::Ask(action)) => Err(Stop::Ask(action)),
    }
}

} // verus!
