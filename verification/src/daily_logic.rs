//! Dates, paths and texts of daily entries.
//!
//! A daily entry stands at `folder/YYYY/MM/YYYY-MM-DD.md`. Above it stand the
//! index files of its month, of its year and of the whole hierarchy.

use vstd::prelude::*;

use crate::date::{
    ascii_digit, date_at_offset, date_reading, first_number, format_date, format_moment, iso_text,
    last_number, law_iso_text, law_next_day, law_number_identifies, law_number_range,
    law_previous_day, law_year_text, local_day, moment_reading, month_slug, read_date, read_moment,
    shift_days, timestamp_text, two_digits, year_text, CalendarDate, EnglishDialect, LocalDateTime,
    UtcOffset, ISO_PATTERN, TIMESTAMP_PATTERN,
};
use crate::english::{
    english_reading, everyday, is_plain_english, law_everyday_plain, law_near_days_plain,
    plain_english, read_english,
};
use crate::text::{
    char_replaced, chars_of, concat, ends_with, join_first, joined, lemma_joined_without,
    lemma_padded_digits, lemma_padded_value, lemma_segments_clean, lemma_segments_join,
    lemma_segments_joined, lemma_segments_single, lemma_segments_without, lemma_two_digits, replace,
    replace_char, replaced, segments, slash_trimmed, slashes, split_segments, text_between,
    to_ascii_lowercase, trim_slashes, without_back, without_front,
};

verus! {

/// Why a text is no date or a path no daily entry.
#[derive(Debug)]
pub enum DailyError {
    InvalidDate(String),
    NotDailyPath,
}

impl DailyError {
    /// The message for the user.
    pub open spec fn message_text(self) -> Seq<char> {
        match self {
            DailyError::InvalidDate(input) => "Invalid date format: "@ + input@,
            DailyError::NotDailyPath => "Path is not a daily entry path"@,
        }
    }

    pub fn message(&self) -> (r: String)
        ensures
            r@ == self.message_text(),
    {
        match self {
            DailyError::InvalidDate(input) => concat("Invalid date format: ", input.as_str()),
            DailyError::NotDailyPath => "Path is not a daily entry path".to_owned(),
        }
    }
}

/// The settings of the plugin.
#[derive(Debug)]
pub struct DailyPluginConfig {
    /// The folder of the daily hierarchy, where one is set; see
    /// [`DailyPluginConfig::effective_entry_folder`].
    pub entry_folder: Option<String>,
    /// The template of new entries: its text, or a path or link to it.
    pub entry_template: Option<String>,
    /// Whether the settings of the root index have been taken over.
    pub migrated_legacy_config: bool,
}

/// What the settings hold.
pub struct ConfigView {
    pub entry_folder: Option<Seq<char>>,
    pub entry_template: Option<Seq<char>>,
    pub migrated_legacy_config: bool,
}

impl View for DailyPluginConfig {
    type V = ConfigView;

    open spec fn view(&self) -> ConfigView {
        ConfigView {
            entry_folder: opt_string_view(self.entry_folder),
            entry_template: opt_string_view(self.entry_template),
            migrated_legacy_config: self.migrated_legacy_config,
        }
    }
}

impl Default for DailyPluginConfig {
    fn default() -> (r: Self)
        ensures
            r.entry_folder is None,
            r.entry_template is None,
            !r.migrated_legacy_config,
    {
        DailyPluginConfig { entry_folder: None, entry_template: None, migrated_legacy_config: false }
    }
}

impl Clone for DailyPluginConfig {
    fn clone(&self) -> (r: Self)
        ensures
            r == *self,
    {
        DailyPluginConfig {
            entry_folder: self.entry_folder.clone(),
            entry_template: self.entry_template.clone(),
            migrated_legacy_config: self.migrated_legacy_config,
        }
    }
}

/// The paths of the files that belong to a date.
#[derive(Debug, Clone)]
pub struct DailyPaths {
    pub folder: String,
    pub daily_index: String,
    pub year_index: String,
    pub month_index: String,
    pub entry: String,
}

/// A step from one day to a neighbour.
#[derive(Debug, Clone, Copy, PartialEq, Eq, Structural)]
pub enum DailyDirection {
    Prev,
    Next,
}

/// The characters of a text that may be missing.
pub open spec fn opt_view(s: Option<&str>) -> Option<Seq<char>> {
    match s {
        Some(t) => Some(t@),
        None => None,
    }
}

/// The characters of a text of one's own that may be missing.
pub open spec fn opt_string_view(s: Option<String>) -> Option<Seq<char>> {
    match s {
        Some(t) => Some(t@),
        None => None,
    }
}

// ---------------------------------------------------------------------------
// Folders
// ---------------------------------------------------------------------------

/// A folder without slashes at its ends; no folder is the empty one.
pub open spec fn folder_text(folder: Option<Seq<char>>) -> Seq<char> {
    match folder {
        Some(f) => slash_trimmed(f),
        None => Seq::empty(),
    }
}

/// The folder of the hierarchy: the one that is set, or `Daily`.
pub open spec fn effective_folder(folder: Option<Seq<char>>) -> Seq<char> {
    let f = folder_text(folder);
    if f.len() == 0 {
        "Daily"@
    } else {
        f
    }
}

/// `prefix/rel`, or `rel` alone where there is no prefix.
pub open spec fn scoped(prefix: Seq<char>, rel: Seq<char>) -> Seq<char> {
    if prefix.len() == 0 {
        rel
    } else {
        prefix + "/"@ + rel
    }
}

pub fn normalize_folder(folder: Option<&str>) -> (r: String)
    ensures
        r@ == folder_text(opt_view(folder)),
{
    match folder {
        Some(f) => trim_slashes(f),
        None => String::new(),
    }
}

pub fn scoped_path(prefix: &str, rel: &str) -> (r: String)
    ensures
        r@ == scoped(prefix@, rel@),
{
    if prefix.is_empty() {
        rel.to_owned()
    } else {
        let mut out: String = prefix.to_owned();
        out.append("/");
        out.append(rel);
        out
    }
}

proof fn lemma_trimmed_ends(s: Seq<char>)
    ensures
        ({
            let t = slash_trimmed(s);
            t.len() > 0 ==> t[0] != '/' && t.last() != '/'
        }),
{
    let front = without_front(s, slashes());
    lemma_front_ends(s);
    lemma_back_ends(front);
}

proof fn lemma_front_ends(s: Seq<char>)
    ensures
        without_front(s, slashes()).len() > 0 ==> without_front(s, slashes())[0] != '/',
    decreases s.len(),
{
    if s.len() > 0 && slashes()(s[0]) {
        lemma_front_ends(s.drop_first());
    }
}

proof fn lemma_back_ends(s: Seq<char>)
    ensures
        ({
            let t = without_back(s, slashes());
            t.len() > 0 ==> t.last() != '/' && t[0] == s[0]
        }),
    decreases s.len(),
{
    if s.len() > 0 && slashes()(s.last()) {
        lemma_back_ends(s.drop_last());
    }
}

/// The folder of the hierarchy always has a name, without a slash at its ends.
pub proof fn law_effective_folder(folder: Option<Seq<char>>)
    ensures
        effective_folder(folder).len() > 0,
        effective_folder(folder)[0] != '/',
        effective_folder(folder).last() != '/',
{
    reveal_strlit("Daily");
    if let Some(f) = folder {
        lemma_trimmed_ends(f);
    }
}

/// A folder that was normalized stays as it is.
pub proof fn law_folder_normalized(folder: Seq<char>)
    ensures
        folder_text(Some(folder_text(Some(folder)))) == folder_text(Some(folder)),
{
    lemma_trimmed_ends(folder);
}

impl DailyPluginConfig {
    /// The folder of daily entries: the one that is set, without slashes at its
    /// ends, or `Daily`.
    pub fn effective_entry_folder(&self) -> (r: String)
        ensures
            r@ == effective_folder(opt_string_view(self.entry_folder)),
    {
        let normalized = match &self.entry_folder {
            Some(folder) => normalize_folder(Some(folder.as_str())),
            None => normalize_folder(None),
        };
        if normalized.as_str().is_empty() {
            "Daily".to_owned()
        } else {
            normalized
        }
    }
}

// ---------------------------------------------------------------------------
// Paths of a date
// ---------------------------------------------------------------------------

/// `YYYY/MM/YYYY-MM-DD.md`.
pub open spec fn entry_path(date: CalendarDate) -> Seq<char> {
    year_text(date.year as int) + "/"@ + two_digits(date.month as int) + "/"@ + iso_text(date)
        + ".md"@
}

/// `YYYY_index.md`.
pub open spec fn year_index_name(date: CalendarDate) -> Seq<char> {
    year_text(date.year as int) + "_index.md"@
}

/// `YYYY_month.md`.
pub open spec fn month_index_name(date: CalendarDate) -> Seq<char> {
    year_text(date.year as int) + "_"@ + month_slug(date.month as int) + ".md"@
}

/// The texts of [`DailyPaths`].
#[verifier::ext_equal]
pub struct DailyPathTexts {
    pub folder: Seq<char>,
    pub daily_index: Seq<char>,
    pub year_index: Seq<char>,
    pub month_index: Seq<char>,
    pub entry: Seq<char>,
}

impl View for DailyPaths {
    type V = DailyPathTexts;

    open spec fn view(&self) -> DailyPathTexts {
        DailyPathTexts {
            folder: self.folder@,
            daily_index: self.daily_index@,
            year_index: self.year_index@,
            month_index: self.month_index@,
            entry: self.entry@,
        }
    }
}

/// The files of a date in a folder.
pub open spec fn paths_of(folder: Seq<char>, date: CalendarDate) -> DailyPathTexts {
    let year = year_text(date.year as int);
    let month = two_digits(date.month as int);
    DailyPathTexts {
        folder,
        daily_index: scoped(folder, "daily_index.md"@),
        year_index: scoped(folder, year + "/"@ + year_index_name(date)),
        month_index: scoped(folder, year + "/"@ + month + "/"@ + month_index_name(date)),
        entry: scoped(folder, entry_path(date)),
    }
}

/// The path of an entry below its folder.
pub fn entry_relative_path(date: CalendarDate) -> (r: String)
    requires
        date.valid(),
    ensures
        r@ == entry_path(date),
{
    let mut out = format_date(date, "%Y");
    out.append("/");
    out.append(format_date(date, "%m").as_str());
    out.append("/");
    out.append(format_date(date, ISO_PATTERN).as_str());
    out.append(".md");
    out
}

pub fn year_index_filename(date: CalendarDate) -> (r: String)
    requires
        date.valid(),
    ensures
        r@ == year_index_name(date),
{
    let mut out = format_date(date, "%Y");
    out.append("_index.md");
    out
}

pub fn month_index_filename(date: CalendarDate) -> (r: String)
    requires
        date.valid(),
    ensures
        r@ == month_index_name(date),
{
    let mut out = format_date(date, "%Y");
    out.append("_");
    out.append(to_ascii_lowercase(format_date(date, "%B").as_str()).as_str());
    out.append(".md");
    out
}

/// All files of the hierarchy that belong to a date.
pub fn paths_for_date(folder: &str, date: CalendarDate) -> (r: DailyPaths)
    requires
        date.valid(),
    ensures
        r@ == paths_of(folder@, date),
{
    let year = format_date(date, "%Y");
    let month = format_date(date, "%m");
    let mut year_dir: String = year.clone();
    year_dir.append("/");
    let year_file = concat(year_dir.as_str(), year_index_filename(date).as_str());
    let mut month_dir: String = year_dir.clone();
    month_dir.append(month.as_str());
    month_dir.append("/");
    let month_file = concat(month_dir.as_str(), month_index_filename(date).as_str());
    DailyPaths {
        folder: folder.to_owned(),
        daily_index: scoped_path(folder, "daily_index.md"),
        year_index: scoped_path(folder, year_file.as_str()),
        month_index: scoped_path(folder, month_file.as_str()),
        entry: scoped_path(folder, entry_relative_path(date).as_str()),
    }
}

// ---------------------------------------------------------------------------
// The date of a path
// ---------------------------------------------------------------------------

/// The segments of a path, with either kind of slash between them.
pub open spec fn path_parts(path: Seq<char>) -> Seq<Seq<char>> {
    segments(char_replaced(path, '\\', '/'))
}

/// Whether a file is named `YYYY-MM-DD.md` after a date.
pub open spec fn named_after(name: Seq<char>, date: CalendarDate) -> bool {
    date.valid() && name == iso_text(date) + ".md"@
}

/// The date of a file name `YYYY-MM-DD.md`.
pub open spec fn date_of_name(name: Seq<char>) -> Option<CalendarDate> {
    if exists|date: CalendarDate| named_after(name, date) {
        Some(choose|date: CalendarDate| named_after(name, date))
    } else {
        None
    }
}

/// The date of a path that ends in `YYYY/MM/YYYY-MM-DD.md`, where the year and
/// the month of the folders are those of the file.
pub open spec fn date_of_path(path: Seq<char>) -> Option<CalendarDate> {
    let parts = path_parts(path);
    let n = parts.len() as int;
    if n < 3 {
        None
    } else {
        match date_of_name(parts[n - 1]) {
            Some(date) => if parts[n - 3] == year_text(date.year as int) && parts[n - 2]
                == two_digits(date.month as int) {
                Some(date)
            } else {
                None
            },
            None => None,
        }
    }
}

/// The date of the last segment of a path alone.
pub open spec fn date_of_last_part(path: Seq<char>) -> Option<CalendarDate> {
    let parts = path_parts(path);
    if parts.len() == 0 {
        None
    } else {
        date_of_name(parts.last())
    }
}

/// What a reading of a path comes to: its date, or that it has none.
pub open spec fn path_answer(r: Result<CalendarDate, DailyError>, d: Option<CalendarDate>) -> bool {
    match d {
        Some(date) => r == Ok::<CalendarDate, DailyError>(date) && date.valid(),
        None => r == Err::<CalendarDate, DailyError>(DailyError::NotDailyPath),
    }
}

/// Neither kind of slash stands in `s`.
pub open spec fn slashless(s: Seq<char>) -> bool {
    forall|i: int| 0 <= i < s.len() ==> #[trigger] s[i] != '/' && s[i] != '\\'
}

proof fn lemma_year_slashless(year: int)
    ensures
        slashless(year_text(year)),
        year_text(year).len() > 0,
{
    lemma_padded_digits(year as nat, 4);
    lemma_padded_digits((-year) as nat, 4);
}

pub(crate) proof fn lemma_iso_slashless(date: CalendarDate)
    ensures
        slashless(iso_text(date) + ".md"@),
        slashless(two_digits(date.month as int)),
        two_digits(date.month as int).len() > 0,
{
    reveal_strlit("-");
    reveal_strlit(".md");
    lemma_year_slashless(date.year as int);
    lemma_padded_digits(date.month as nat, 2);
    lemma_padded_digits(date.day as nat, 2);
}

/// A file name tells the date that it is named after.
pub proof fn law_name_date(name: Seq<char>, date: CalendarDate)
    requires
        named_after(name, date),
    ensures
        date_of_name(name) == Some(date),
{
    let found = choose|d: CalendarDate| named_after(name, d);
    let n = name.len() - ".md"@.len();
    assert(name.take(n) =~= iso_text(date));
    assert(name.take(n) =~= iso_text(found));
    law_iso_text(found, date);
}

proof fn lemma_entry_parts(folder: Seq<char>, date: CalendarDate)
    ensures
        path_parts(scoped(folder, entry_path(date))) == path_parts(folder) + seq![
            year_text(date.year as int),
            two_digits(date.month as int),
            iso_text(date) + ".md"@,
        ],
{
    reveal_strlit("/");
    let year = year_text(date.year as int);
    let month = two_digits(date.month as int);
    let file = iso_text(date) + ".md"@;
    let slash = seq!['/'];
    lemma_year_slashless(date.year as int);
    lemma_iso_slashless(date);
    let below = year + slash + month + slash + file;
    assert("/"@ =~= slash);
    assert(entry_path(date) =~= below);
    assert(char_replaced(below, '\\', '/') =~= below);
    lemma_segments_single(year);
    lemma_segments_single(month);
    lemma_segments_single(file);
    lemma_segments_join(year, month);
    lemma_segments_join(year + slash + month, file);
    assert(segments(below) =~= seq![year, month, file]);
    let path = scoped(folder, entry_path(date));
    if folder.len() == 0 {
        assert(path_parts(folder) =~= Seq::<Seq<char>>::empty()) by {
            assert(char_replaced(folder, '\\', '/') =~= Seq::<char>::empty());
        }
        assert(path_parts(folder) + seq![year, month, file] =~= seq![year, month, file]);
    } else {
        let clean = char_replaced(folder, '\\', '/');
        assert(char_replaced(path, '\\', '/') =~= clean + slash + below);
        lemma_segments_join(clean, below);
    }
}

/// The path of an entry, below whatever folder, gives the date that it was built
/// from.
pub proof fn law_entry_date(folder: Seq<char>, date: CalendarDate)
    requires
        date.valid(),
    ensures
        date_of_path(scoped(folder, entry_path(date))) == Some(date),
{
    lemma_entry_parts(folder, date);
    law_name_date(iso_text(date) + ".md"@, date);
}

/// The last segment of a path that ends in a slash and a file name.
pub(crate) proof fn lemma_last_part(above: Seq<char>, file: Seq<char>)
    requires
        file.len() > 0,
        slashless(file),
    ensures
        path_parts(file).len() > 0,
        path_parts(file).last() == file,
        path_parts(above + seq!['/'] + file).len() > 0,
        path_parts(above + seq!['/'] + file).last() == file,
{
    assert(char_replaced(file, '\\', '/') =~= file);
    lemma_segments_single(file);
    let clean = char_replaced(above, '\\', '/');
    assert(char_replaced(above + seq!['/'] + file, '\\', '/') =~= clean + seq!['/'] + file);
    lemma_segments_join(clean, file);
}

/// The end of a file name that is named after a date: `-MM-DD.md`.
pub open spec fn ends_like_a_date(name: Seq<char>) -> bool {
    let n = name.len() as int;
    &&& n >= 13
    &&& name[n - 9] == '-' && name[n - 6] == '-'
    &&& ascii_digit(name[n - 8]) && ascii_digit(name[n - 7])
    &&& ascii_digit(name[n - 5]) && ascii_digit(name[n - 4])
    &&& name[n - 3] == '.' && name[n - 2] == 'm' && name[n - 1] == 'd'
}

/// A file that is named after a date has two digits for the month and two for the
/// day, and one `.md` behind them.
pub proof fn law_name_shape(name: Seq<char>)
    ensures
        date_of_name(name) is Some ==> ends_like_a_date(name),
{
    reveal_strlit(".md");
    reveal_strlit("-");
    if date_of_name(name) is Some {
        let d = choose|d: CalendarDate| named_after(name, d);
        lemma_padded_digits(d.month as nat, 2);
        lemma_padded_digits(d.day as nat, 2);
        lemma_padded_digits(d.year as nat, 4);
        lemma_padded_digits((-d.year) as nat, 4);
        lemma_two_digits(d.month as nat);
        lemma_two_digits(d.day as nat);
        let (month, day) = (two_digits(d.month as int), two_digits(d.day as int));
        let n = name.len() as int;
        assert(year_text(d.year as int).len() >= 4);
        assert(name[n - 8] == month[0] && name[n - 7] == month[1]);
        assert(name[n - 5] == day[0] && name[n - 4] == day[1]);
    }
}

proof fn lemma_index_names(date: CalendarDate)
    requires
        date.valid(),
    ensures
        slashless("daily_index.md"@),
        slashless(year_index_name(date)),
        slashless(month_index_name(date)),
        date_of_name("daily_index.md"@) is None,
        date_of_name(year_index_name(date)) is None,
        date_of_name(month_index_name(date)) is None,
        "daily_index.md"@.len() > 0,
        year_index_name(date).len() > 0,
        month_index_name(date).len() > 0,
{
    reveal_strlit("daily_index.md");
    reveal_strlit("_index.md");
    reveal_strlit("_");
    reveal_strlit(".md");
    lemma_year_slashless(date.year as int);
    lemma_slug_letters(date.month as int);
    let slug = month_slug(date.month as int);
    let (y, m) = (year_index_name(date), month_index_name(date));
    assert(y[y.len() - 4] == 'x');
    assert(m[m.len() - 4] == slug.last());
    law_name_shape("daily_index.md"@);
    law_name_shape(y);
    law_name_shape(m);
}

/// The name of a month is all letters, and does not end in an `x`.
pub proof fn lemma_slug_letters(month: int)
    ensures
        month_slug(month).len() > 0,
        forall|i: int|
            0 <= i < month_slug(month).len() ==> 'a' <= #[trigger] month_slug(month)[i] <= 'z',
        month_slug(month).last() != 'x',
{
    reveal_strlit("January");
    reveal_strlit("February");
    reveal_strlit("March");
    reveal_strlit("April");
    reveal_strlit("May");
    reveal_strlit("June");
    reveal_strlit("July");
    reveal_strlit("August");
    reveal_strlit("September");
    reveal_strlit("October");
    reveal_strlit("November");
    reveal_strlit("December");
}

/// The index files of a date are no daily entries.
pub proof fn law_indexes_are_no_entries(folder: Seq<char>, date: CalendarDate)
    requires
        date.valid(),
    ensures
        date_of_path(paths_of(folder, date).daily_index) is None,
        date_of_path(paths_of(folder, date).year_index) is None,
        date_of_path(paths_of(folder, date).month_index) is None,
        date_of_last_part(paths_of(folder, date).daily_index) is None,
        date_of_last_part(paths_of(folder, date).year_index) is None,
        date_of_last_part(paths_of(folder, date).month_index) is None,
{
    reveal_strlit("/");
    let slash = seq!['/'];
    assert("/"@ =~= slash);
    let paths = paths_of(folder, date);
    let year = year_text(date.year as int);
    let month = two_digits(date.month as int);
    let (y, m) = (year_index_name(date), month_index_name(date));
    lemma_index_names(date);
    lemma_last_part(folder, "daily_index.md"@);
    if folder.len() == 0 {
        lemma_last_part(year, y);
        lemma_last_part(year + slash + month, m);
        assert(paths.month_index =~= year + slash + month + slash + m);
    } else {
        lemma_last_part(folder + slash + year, y);
        lemma_last_part(folder + slash + year + slash + month, m);
        assert(paths.year_index =~= folder + slash + year + slash + y);
        assert(paths.month_index =~= folder + slash + year + slash + month + slash + m);
    }
}

/// Every file of a date stands below the folder, and none at the root where there
/// is no folder.
pub proof fn law_paths_below(folder: Seq<char>, date: CalendarDate)
    requires
        date.valid(),
    ensures
        ({
            let paths = paths_of(folder, date);
            &&& paths.folder == folder
            &&& folder.len() == 0 ==> paths.daily_index[0] != '/' && paths.year_index[0] != '/'
                && paths.month_index[0] != '/' && paths.entry[0] != '/'
            &&& folder.len() > 0 ==> (folder + "/"@).is_prefix_of(paths.daily_index) && (folder
                + "/"@).is_prefix_of(paths.year_index) && (folder + "/"@).is_prefix_of(
                paths.month_index,
            ) && (folder + "/"@).is_prefix_of(paths.entry)
        }),
{
    reveal_strlit("/");
    reveal_strlit("daily_index.md");
    lemma_year_slashless(date.year as int);
    let year = year_text(date.year as int);
    let paths = paths_of(folder, date);
    if folder.len() == 0 {
        assert(paths.year_index[0] == year[0]);
        assert(paths.month_index[0] == year[0]);
        assert(paths.entry[0] == year[0]);
    } else {
        let n = (folder + "/"@).len() as int;
        assert(paths.daily_index.take(n) =~= folder + "/"@);
        assert(paths.year_index.take(n) =~= folder + "/"@);
        assert(paths.month_index.take(n) =~= folder + "/"@);
        assert(paths.entry.take(n) =~= folder + "/"@);
        assert(paths.daily_index.subrange(0, n) =~= folder + "/"@);
        assert(paths.year_index.subrange(0, n) =~= folder + "/"@);
        assert(paths.month_index.subrange(0, n) =~= folder + "/"@);
        assert(paths.entry.subrange(0, n) =~= folder + "/"@);
    }
}

/// Two texts that start with different years and a slash differ.
proof fn lemma_years_apart(a: int, b: int, u: Seq<char>, v: Seq<char>)
    requires
        year_text(a) + seq!['/'] + u == year_text(b) + seq!['/'] + v,
    ensures
        a == b,
        u == v,
{
    let (x, y) = (year_text(a), year_text(b));
    let (s, t) = (x + seq!['/'] + u, y + seq!['/'] + v);
    lemma_year_slashless(a);
    lemma_year_slashless(b);
    if x.len() < y.len() {
        assert(s[x.len() as int] == '/');
        assert(t[x.len() as int] == y[x.len() as int]);
    }
    if y.len() < x.len() {
        assert(t[y.len() as int] == '/');
        assert(s[y.len() as int] == x[y.len() as int]);
    }
    assert(s.take(x.len() as int) =~= x);
    assert(t.take(x.len() as int) =~= y);
    law_year_text(a, b);
    assert(s.skip(x.len() as int + 1) =~= u);
    assert(t.skip(x.len() as int + 1) =~= v);
}

/// In one folder all dates share the daily index; two dates share the year index
/// just when they are of the same year, the month index just when they are of the
/// same month of the same year, and the entry just when they are the same.
pub proof fn law_paths_shared(folder: Seq<char>, a: CalendarDate, b: CalendarDate)
    requires
        a.valid(),
        b.valid(),
    ensures
        paths_of(folder, a).daily_index == paths_of(folder, b).daily_index,
        paths_of(folder, a).year_index == paths_of(folder, b).year_index <==> a.year == b.year,
        paths_of(folder, a).month_index == paths_of(folder, b).month_index <==> a.year == b.year
            && a.month == b.month,
        paths_of(folder, a).entry == paths_of(folder, b).entry <==> a == b,
{
    reveal_strlit("/");
    let slash = seq!['/'];
    assert("/"@ =~= slash);
    let (p, q) = (paths_of(folder, a), paths_of(folder, b));
    let (ya, yb) = (year_text(a.year as int), year_text(b.year as int));
    let (ma, mb) = (two_digits(a.month as int), two_digits(b.month as int));
    let (u, v) = (year_index_name(a), year_index_name(b));
    let (s, t) = (ma + slash + month_index_name(a), mb + slash + month_index_name(b));
    if p.year_index == q.year_index {
        lemma_scoped_rest(folder, ya + slash + u);
        lemma_scoped_rest(folder, yb + slash + v);
        lemma_years_apart(a.year as int, b.year as int, u, v);
    }
    if p.month_index == q.month_index {
        lemma_scoped_rest(folder, ya + slash + ma + slash + month_index_name(a));
        lemma_scoped_rest(folder, yb + slash + mb + slash + month_index_name(b));
        assert(ya + slash + ma + slash + month_index_name(a) =~= ya + slash + s);
        assert(yb + slash + mb + slash + month_index_name(b) =~= yb + slash + t);
        lemma_years_apart(a.year as int, b.year as int, s, t);
        lemma_two_digits(a.month as nat);
        lemma_two_digits(b.month as nat);
        assert(s.take(2) =~= ma);
        assert(t.take(2) =~= mb);
        lemma_padded_value(a.month as nat, 2);
        lemma_padded_value(b.month as nat, 2);
    }
    if p.entry == q.entry {
        law_entry_date(folder, a);
        law_entry_date(folder, b);
    }
}

/// What stands below a folder is what follows it and a slash.
proof fn lemma_scoped_rest(folder: Seq<char>, rel: Seq<char>)
    ensures
        scoped(folder, rel).skip(
            if folder.len() == 0 {
                0
            } else {
                folder.len() as int + 1
            },
        ) == rel,
{
    reveal_strlit("/");
    if folder.len() == 0 {
        assert(scoped(folder, rel).skip(0) =~= rel);
    } else {
        assert(scoped(folder, rel).skip(folder.len() as int + 1) =~= rel);
    }
}

fn date_of_file_name(name: &str) -> (r: Option<CalendarDate>)
    ensures
        r == date_of_name(name@),
        r matches Some(d) ==> d.valid(),
{
    if !ends_with(name, ".md") {
        proof {
            assert forall|d: CalendarDate| !named_after(name@, d) by {
                assert(".md"@.is_suffix_of(iso_text(d) + ".md"@)) by {
                    let t = iso_text(d) + ".md"@;
                    assert(t.subrange(t.len() - ".md"@.len(), t.len() as int) =~= ".md"@);
                }
            }
        }
        return None;
    }
    proof {
        reveal_strlit(".md");
    }
    let v = chars_of(name);
    let n: usize = v.len();
    let stem = text_between(&v, 0, n - 3);
    assert(name@ =~= stem@ + ".md"@);
    proof {
        assert forall|d: CalendarDate| named_after(name@, d) implies stem@ == iso_text(d) by {
            assert(stem@ =~= (iso_text(d) + ".md"@).take(n - 3));
        }
    }
    match read_date(stem.as_str(), ISO_PATTERN) {
        Some(date) => {
            if stem == format_date(date, ISO_PATTERN) {
                proof {
                    law_name_date(name@, date);
                }
                Some(date)
            } else {
                None
            }
        },
        None => None,
    }
}

/// The date of a daily entry path.
///
/// The path of an entry, below whatever folder, gives the date that it was
/// built from.
pub fn path_to_date(path: &str) -> (r: Result<CalendarDate, DailyError>)
    ensures
        path_answer(r, date_of_path(path@)),
        forall|folder: Seq<char>, date: CalendarDate|
            #![trigger scoped(folder, entry_path(date))]
            date.valid() && path@ == scoped(folder, entry_path(date)) ==> r == Ok::<
                CalendarDate,
                DailyError,
            >(date),
{
    let normalized = replace_char(path, '\\', '/');
    let parts = split_segments(normalized.as_str());
    proof {
        assert forall|folder: Seq<char>, date: CalendarDate|
            #![trigger scoped(folder, entry_path(date))]
            date.valid() && path@ == scoped(folder, entry_path(date)) implies date_of_path(path@)
            == Some(date) by {
            law_entry_date(folder, date);
        }
    }
    if parts.len() < 3 {
        return Err(DailyError::NotDailyPath);
    }
    let n: usize = parts.len();
    let filename = &parts[n - 1];
    let month = &parts[n - 2];
    let year = &parts[n - 3];
    match date_of_file_name(filename.as_str()) {
        Some(date) => {
            if *year == format_date(date, "%Y") && *month == format_date(date, "%m") {
                Ok(date)
            } else {
                Err(DailyError::NotDailyPath)
            }
        },
        None => Err(DailyError::NotDailyPath),
    }
}

/// The date of a path whose file alone is named like a daily entry.
pub fn date_from_filename(path: &str) -> (r: Result<CalendarDate, DailyError>)
    ensures
        path_answer(r, date_of_last_part(path@)),
{
    let normalized = replace_char(path, '\\', '/');
    let parts = split_segments(normalized.as_str());
    if parts.len() == 0 {
        return Err(DailyError::NotDailyPath);
    }
    let n: usize = parts.len();
    match date_of_file_name(parts[n - 1].as_str()) {
        Some(date) => Ok(date),
        None => Err(DailyError::NotDailyPath),
    }
}

/// Whether a path is that of a daily entry.
pub fn is_daily_entry_path(path: &str) -> (r: bool)
    ensures
        r == (date_of_path(path@) is Some),
{
    match path_to_date(path) {
        Ok(_) => true,
        Err(_) => false,
    }
}

// ---------------------------------------------------------------------------
// Neighbouring entries
// ---------------------------------------------------------------------------

/// The neighbour of a date, where the calendar has one.
pub open spec fn adjacent_date(date: CalendarDate, direction: DailyDirection) -> Option<
    CalendarDate,
> {
    match direction {
        DailyDirection::Prev => if date.is_first() {
            None
        } else {
            Some(date.previous())
        },
        DailyDirection::Next => if date.is_last() {
            None
        } else {
            Some(date.next())
        },
    }
}

/// The direction back.
pub open spec fn opposite(direction: DailyDirection) -> DailyDirection {
    match direction {
        DailyDirection::Prev => DailyDirection::Next,
        DailyDirection::Next => DailyDirection::Prev,
    }
}

/// The folders of an entry path above its year.
pub open spec fn base_folder(path: Seq<char>) -> Seq<char> {
    joined(path_parts(path).take(path_parts(path).len() - 3), "/"@)
}

/// The path of the neighbouring entry below the same folders.
pub open spec fn adjacent_path(path: Seq<char>, direction: DailyDirection) -> Option<Seq<char>> {
    match date_of_path(path) {
        Some(date) => match adjacent_date(date, direction) {
            Some(target) => Some(scoped(base_folder(path), entry_path(target))),
            None => None,
        },
        None => None,
    }
}

/// A folder as [`adjacent_daily_entry_path`] writes it: its segments with one
/// slash between them.
pub open spec fn folder_of_parts(folder: Seq<char>) -> Seq<char> {
    joined(path_parts(folder), "/"@)
}

/// The path of the neighbouring entry below the same folders.
///
/// From the path of an entry in a folder, the step leads to the path of the
/// neighbouring date in that folder.
pub fn adjacent_daily_entry_path(path: &str, direction: DailyDirection) -> (r: Result<
    String,
    DailyError,
>)
    ensures
        match adjacent_path(path@, direction) {
            Some(p) => r matches Ok(s) && s@ == p,
            None => r == Err::<String, DailyError>(DailyError::NotDailyPath),
        },
        forall|folder: Seq<char>, date: CalendarDate|
            #![trigger scoped(folder, entry_path(date))]
            date.valid() && path@ == scoped(folder, entry_path(date)) ==> match adjacent_date(
                date,
                direction,
            ) {
                Some(t) => r matches Ok(s) && s@ == scoped(folder_of_parts(folder), entry_path(t)),
                None => r is Err,
            },
{
    let date = match path_to_date(path) {
        Ok(date) => date,
        Err(_) => return Err(DailyError::NotDailyPath),
    };
    proof {
        assert forall|folder: Seq<char>, d: CalendarDate|
            #![trigger scoped(folder, entry_path(d))]
            d.valid() && path@ == scoped(folder, entry_path(d)) implies d == date && base_folder(
            path@,
        ) == folder_of_parts(folder) by {
            lemma_entry_parts(folder, d);
            let parts = path_parts(path@);
            assert(parts.take(parts.len() - 3) =~= path_parts(folder));
        }
    }
    let offset: i64 = match direction {
        DailyDirection::Prev => -1,
        DailyDirection::Next => 1,
    };
    let target = match shift_days(date, offset) {
        Some(target) => {
            proof {
                law_number_range(target);
                match direction {
                    DailyDirection::Prev => {
                        if date.is_first() {
                            lemma_first_number(date);
                        }
                        law_previous_day(date);
                        law_number_identifies(target, date.previous());
                    },
                    DailyDirection::Next => {
                        if date.is_last() {
                            lemma_last_number(date);
                        }
                        law_next_day(date);
                        law_number_identifies(target, date.next());
                    },
                }
            }
            target
        },
        None => {
            proof {
                match direction {
                    DailyDirection::Prev => {
                        if !date.is_first() {
                            law_previous_day(date);
                            law_number_range(date.previous());
                        }
                        law_number_range(date);
                    },
                    DailyDirection::Next => {
                        if !date.is_last() {
                            law_next_day(date);
                            law_number_range(date.next());
                        }
                        law_number_range(date);
                    },
                }
            }
            return Err(DailyError::NotDailyPath);
        },
    };
    let normalized = replace_char(path, '\\', '/');
    let parts = split_segments(normalized.as_str());
    let prefix = join_first(&parts, parts.len() - 3, "/");
    let rel = entry_relative_path(target);
    Ok(scoped_path(prefix.as_str(), rel.as_str()))
}

proof fn lemma_first_number(date: CalendarDate)
    requires
        date.valid(),
        date.is_first(),
    ensures
        date.number() == first_number(),
{
}

proof fn lemma_last_number(date: CalendarDate)
    requires
        date.valid(),
        date.is_last(),
    ensures
        date.number() == last_number(),
{
}

/// The folders above the year of the path of an entry are those that it was built
/// below.
pub proof fn law_base_folder(folder: Seq<char>, date: CalendarDate)
    ensures
        base_folder(scoped(folder, entry_path(date))) == joined(path_parts(folder), "/"@),
{
    lemma_entry_parts(folder, date);
    let parts = path_parts(scoped(folder, entry_path(date)));
    assert(parts.take(parts.len() - 3) =~= path_parts(folder));
}

/// A path with a date is made of folders and of the path of the entry of that date
/// below them.
pub proof fn law_date_of_path(path: Seq<char>)
    requires
        date_of_path(path) is Some,
    ensures
        date_of_path(path)->0.valid(),
        path_parts(path) == path_parts(
            scoped(
                joined(path_parts(path).take(path_parts(path).len() - 3), "/"@),
                entry_path(date_of_path(path)->0),
            ),
        ),
{
    let parts = path_parts(path);
    let n = parts.len() as int;
    let date = date_of_path(path)->0;
    let name = parts[n - 1];
    let found = choose|d: CalendarDate| named_after(name, d);
    assert(date == found);
    lemma_path_parts_joined(path, n - 3);
    lemma_entry_parts(joined(parts.take(n - 3), "/"@), date);
    assert(parts =~= parts.take(n - 3) + seq![parts[n - 3], parts[n - 2], parts[n - 1]]);
}

/// A step to a neighbour and a step back lead to the path of the same date below
/// the same folders.
pub proof fn law_step_back(path: Seq<char>, direction: DailyDirection)
    requires
        adjacent_path(path, direction) is Some,
    ensures
        adjacent_path(adjacent_path(path, direction)->0, opposite(direction)) == Some(
            scoped(base_folder(path), entry_path(date_of_path(path)->0)),
        ),
{
    let date = date_of_path(path)->0;
    let parts = path_parts(path);
    let base = parts.take(parts.len() - 3);
    let target = adjacent_date(date, direction)->0;
    let q = adjacent_path(path, direction)->0;
    reveal_strlit("/");
    assert("/"@ =~= seq!['/']);
    match direction {
        DailyDirection::Prev => law_previous_day(date),
        DailyDirection::Next => law_next_day(date),
    }
    lemma_entry_parts(base_folder(path), target);
    law_entry_date(base_folder(path), target);
    lemma_path_parts_joined(path, base.len() as int);
    assert(path_parts(q).take(path_parts(q).len() - 3) =~= path_parts(base_folder(path)));
}

/// The folders of a path, joined again, are the same folders.
proof fn lemma_path_parts_joined(path: Seq<char>, n: int)
    requires
        0 <= n <= path_parts(path).len(),
    ensures
        path_parts(joined(path_parts(path).take(n), "/"@)) == path_parts(path).take(n),
{
    reveal_strlit("/");
    assert("/"@ =~= seq!['/']);
    let clean = char_replaced(path, '\\', '/');
    let base = path_parts(path).take(n);
    lemma_segments_clean(clean);
    assert forall|i: int| 0 <= i < clean.len() implies clean[i] != '\\' by {}
    lemma_segments_without(clean, '\\');
    lemma_segments_joined(base);
    lemma_joined_without(base, '\\');
    let text = joined(base, seq!['/']);
    assert(char_replaced(text, '\\', '/') =~= text);
}

/// A folder of plain names with one slash between them is kept as it is by a
/// step to a neighbour.
pub proof fn law_prefix_kept(names: Seq<Seq<char>>)
    requires
        forall|k: int|
            0 <= k < names.len() ==> (#[trigger] names[k]).len() > 0 && slashless(names[k]),
    ensures
        folder_of_parts(joined(names, "/"@)) == joined(names, "/"@),
{
    reveal_strlit("/");
    assert("/"@ =~= seq!['/']);
    lemma_segments_joined(names);
    assert forall|k: int| 0 <= k < names.len() implies !(#[trigger] names[k]).contains('\\') by {}
    lemma_joined_without(names, '\\');
    let text = joined(names, seq!['/']);
    assert(char_replaced(text, '\\', '/') =~= text);
}

// ---------------------------------------------------------------------------
// Dates that the user writes
// ---------------------------------------------------------------------------

/// The text of the input: what is given, or `today`.
pub open spec fn input_text(date: Option<Seq<char>>) -> Seq<char> {
    match date {
        Some(t) => t,
        None => "today"@,
    }
}

/// Whether an input can be read: as a date, as a moment, or by the English
/// parser.
pub open spec fn readable(text: Seq<char>, now: LocalDateTime) -> bool {
    date_reading(text, ISO_PATTERN@) is Some || moment_reading(text) is Ok || plain_english(
        text,
        now,
    )
}

/// The date of an input: as `YYYY-MM-DD`, else as the local date of an RFC 3339
/// moment, else as an English expression at the moment `now`.
pub open spec fn input_date(text: Seq<char>, now: LocalDateTime) -> Option<CalendarDate> {
    match date_reading(text, ISO_PATTERN@) {
        Some(date) => Some(date),
        None => match moment_reading(text) {
            Ok(moment) => Some(moment.date),
            Err(_) => english_reading(text, now, EnglishDialect::Us),
        },
    }
}

/// The answer to an input: its date, or that it is no date.
pub open spec fn input_answer(
    r: Result<CalendarDate, DailyError>,
    text: Seq<char>,
    now: LocalDateTime,
) -> bool {
    match input_date(text, now) {
        Some(date) => r == Ok::<CalendarDate, DailyError>(date) && date.valid(),
        None => r matches Err(DailyError::InvalidDate(s)) && s@ == text,
    }
}

/// Reads the date that the user wrote; nothing stands for `today`.
pub fn parse_date_input(date: Option<&str>, now: &LocalDateTime) -> (r: Result<
    CalendarDate,
    DailyError,
>)
    requires
        now.valid(),
        readable(input_text(opt_view(date)), *now),
    ensures
        input_answer(r, input_text(opt_view(date)), *now),
        forall|d: CalendarDate|
            #![trigger iso_text(d)]
            d.valid() && input_text(opt_view(date)) == iso_text(d) ==> r == Ok::<CalendarDate, DailyError>(d),
        input_text(opt_view(date)) == "today"@ ==> r == Ok::<CalendarDate, DailyError>(now.date),
        input_text(opt_view(date)) == "yesterday"@ && now.nanosecond < 1_000_000_000 ==> r == Ok::<CalendarDate, DailyError>(
            now.date.previous(),
        ),
        input_text(opt_view(date)) == "tomorrow"@ ==> r == Ok::<CalendarDate, DailyError>(now.date.next()),
{
    let input: &str = match date {
        Some(text) => text,
        None => "today",
    };
    proof {
        reveal_strlit("today");
        reveal_strlit("yesterday");
        reveal_strlit("tomorrow");
    }
    if let Some(parsed) = read_date(input, ISO_PATTERN) {
        return Ok(parsed);
    }
    if let Ok(parsed) = read_moment(input) {
        return Ok(parsed.date);
    }
    match read_english(input, now, EnglishDialect::Us) {
        Some(parsed) => Ok(parsed),
        None => Err(DailyError::InvalidDate(input.to_owned())),
    }
}

/// The same for any text: nothing where the text cannot be read at all.
pub fn try_parse_date_input(date: Option<&str>, now: &LocalDateTime) -> (r: Option<
    Result<CalendarDate, DailyError>,
>)
    requires
        now.valid(),
    ensures
        r is Some <==> readable(input_text(opt_view(date)), *now),
        r matches Some(answer) ==> input_answer(answer, input_text(opt_view(date)), *now),
        forall|d: CalendarDate|
            #![trigger iso_text(d)]
            d.valid() && input_text(opt_view(date)) == iso_text(d) ==> r == Some(Ok::<CalendarDate, DailyError>(d)),
        input_text(opt_view(date)) == "today"@ ==> r == Some(Ok::<CalendarDate, DailyError>(now.date)),
        input_text(opt_view(date)) == "yesterday"@ && now.nanosecond < 1_000_000_000 ==> r == Some(Ok::<CalendarDate, DailyError>(
            now.date.previous(),
        )),
        input_text(opt_view(date)) == "tomorrow"@ ==> r == Some(Ok::<CalendarDate, DailyError>(now.date.next())),
{
    let input: &str = match date {
        Some(text) => text,
        None => "today",
    };
    let known = match read_date(input, ISO_PATTERN) {
        Some(_) => true,
        None => match read_moment(input) {
            Ok(_) => true,
            Err(_) => is_plain_english(input, now),
        },
    };
    proof {
        law_near_days_plain("today"@, *now);
        law_near_days_plain("yesterday"@, *now);
        law_near_days_plain("tomorrow"@, *now);
    }
    if known {
        Some(parse_date_input(date, now))
    } else {
        None
    }
}

/// The date of any input; nothing where it cannot be read.
pub open spec fn any_input_date(text: Seq<char>, now: LocalDateTime) -> Option<CalendarDate> {
    if readable(text, now) {
        input_date(text, now)
    } else {
        None
    }
}

/// Reads the date that the user wrote, for any text: one that cannot be read is
/// no date either.
pub fn read_date_input(date: Option<&str>, now: &LocalDateTime) -> (r: Result<
    CalendarDate,
    DailyError,
>)
    requires
        now.valid(),
    ensures
        match any_input_date(input_text(opt_view(date)), *now) {
            Some(d) => r == Ok::<CalendarDate, DailyError>(d) && d.valid(),
            None => r matches Err(DailyError::InvalidDate(s)) && s@ == input_text(opt_view(date)),
        },
        forall|d: CalendarDate|
            #![trigger iso_text(d)]
            d.valid() && input_text(opt_view(date)) == iso_text(d) ==> r == Ok::<CalendarDate, DailyError>(d),
        input_text(opt_view(date)) == "today"@ ==> r == Ok::<CalendarDate, DailyError>(now.date),
        input_text(opt_view(date)) == "yesterday"@ && now.nanosecond < 1_000_000_000 ==> r == Ok::<CalendarDate, DailyError>(
            now.date.previous(),
        ),
        input_text(opt_view(date)) == "tomorrow"@ ==> r == Ok::<CalendarDate, DailyError>(now.date.next()),
        everyday(input_text(opt_view(date))) && input_text(opt_view(date)).len() < u32::MAX
            && date_reading(input_text(opt_view(date)), "%Y-%m-%d"@) is None && moment_reading(
            input_text(opt_view(date)),
        ) is Err ==> match english_reading(
            input_text(opt_view(date)),
            *now,
            EnglishDialect::Us,
        ) {
            Some(d) => r == Ok::<CalendarDate, DailyError>(d),
            None => r is Err,
        },
{
    proof {
        let text = input_text(opt_view(date));
        if everyday(text) && text.len() < u32::MAX {
            law_everyday_plain(text, *now);
        }
    }
    match try_parse_date_input(date, now) {
        Some(answer) => answer,
        None => {
            let input: &str = match date {
                Some(text) => text,
                None => "today",
            };
            Err(DailyError::InvalidDate(input.to_owned()))
        },
    }
}

/// The local date of an RFC 3339 moment at another offset.
pub fn parse_rfc3339_date_in_offset(input: &str, offset: &UtcOffset) -> (r: Option<CalendarDate>)
    requires
        offset.valid(),
    ensures
        match moment_reading(input@) {
            Ok(moment) => r matches Some(d) && d.valid() && d.number() == local_day(
                moment,
                *offset,
            ),
            Err(_) => r is None,
        },
{
    match read_moment(input) {
        Ok(moment) => Some(date_at_offset(&moment, *offset)),
        Err(_) => None,
    }
}

// ---------------------------------------------------------------------------
// Templates
// ---------------------------------------------------------------------------

/// A template with its placeholders filled, one kind after another: the title,
/// the date, the reference to the parent, the timestamp.
pub open spec fn rendered(
    template: Seq<char>,
    title: Seq<char>,
    date: CalendarDate,
    part_of: Seq<char>,
    now: LocalDateTime,
) -> Seq<char> {
    let titled = replaced(template, "{{title}}"@, title);
    let dated = replaced(titled, "{{date}}"@, iso_text(date));
    let placed = replaced(dated, "{{part_of}}"@, part_of);
    replaced(placed, "{{timestamp}}"@, timestamp_text(now))
}

pub fn render_template(
    template: &str,
    title: &str,
    date: CalendarDate,
    part_of: &str,
    now: &LocalDateTime,
) -> (r: String)
    requires
        date.valid(),
        now.valid(),
    ensures
        r@ == rendered(template@, title@, date, part_of@, *now),
{
    let titled = replace(template, "{{title}}", title);
    let dated = replace(titled.as_str(), "{{date}}", format_date(date, ISO_PATTERN).as_str());
    let placed = replace(dated.as_str(), "{{part_of}}", part_of);
    replace(placed.as_str(), "{{timestamp}}", format_moment(now, TIMESTAMP_PATTERN).as_str())
}

/// The template of entries where none is set.
pub open spec fn default_template() -> Seq<char> {
    "---\ntitle: \"{{title}}\"\ndate: {{date}}\ncreated: {{timestamp}}\npart_of: \"{{part_of}}\"\n---\n\n# {{title}}\n\n"@
}

pub fn default_entry_template() -> (r: &'static str)
    ensures
        r@ == default_template(),
{
    "---\ntitle: \"{{title}}\"\ndate: {{date}}\ncreated: {{timestamp}}\npart_of: \"{{part_of}}\"\n---\n\n# {{title}}\n\n"
}

} // verus!
