//! The commands of the plugin.

use vstd::prelude::*;

use crate::daily_logic::{
    adjacent_daily_entry_path, adjacent_path, any_input_date, date_of_path, input_text, opt_view,
    path_to_date, read_date_input, DailyDirection,
};
use crate::date::{
    format_date, iso_text, law_number_identifies, law_number_range, law_previous_day, shift_days,
    CalendarDate, LocalDateTime, ISO_PATTERN,
};
use crate::entries::{
    add_to_contents, contents_added, date_inferred, ensure_daily_entry_for_date, entry_ensured,
    infer_entry_date, parent_set, set_part_of, DailyState, StateView,
};
use crate::json::{
    first_field, law_field_pushed, list, no_fields, nothing, number, text, text_values, texts, truth,
    words, Fields, Json, JsonView,
};
use crate::listing::{days_found, find_days};
use crate::session::{
    now_asked, outcome, read_asked, stopped, Answer, Ask, Outcome, Session, Stop, Talk,
};
use crate::settings::{config_updated, handle_update_config, reply_outcome};
use crate::text::{concat, same_text, trim, trimmed, views};
use crate::workspace::{to_workspace_rel, workspace_rel};

verus! {

// ---------------------------------------------------------------------------
// Components
// ---------------------------------------------------------------------------

/// The text of a component of the user interface; there is one, the panel.
pub open spec fn component(id: Seq<char>, panel: Seq<char>) -> Result<Seq<char>, Seq<char>> {
    if id == "daily.panel"@ {
        Ok(panel)
    } else {
        Err("Unknown component id: "@ + id)
    }
}

/// A text or a message.
pub open spec fn reply_text(r: Result<String, String>) -> Result<Seq<char>, Seq<char>> {
    match r {
        Ok(s) => Ok(s@),
        Err(e) => Err(e@),
    }
}

pub fn get_component_html_by_id(component_id: &str, panel: &str) -> (r: Result<String, String>)
    ensures
        reply_text(r) == component(component_id@, panel@),
{
    if same_text(component_id, "daily.panel") {
        Ok(panel.to_owned())
    } else {
        Err(concat("Unknown component id: ", component_id))
    }
}

/// The component that an object asks for.
pub open spec fn component_id(params: JsonView) -> Seq<char> {
    match params.text_field("component_id"@) {
        Some(id) => id,
        None => "daily.panel"@,
    }
}

pub fn requested_component(params: &Json) -> (r: String)
    ensures
        r@ == component_id(params@),
{
    match params.get_str("component_id") {
        Some(id) => id.to_owned(),
        None => "daily.panel".to_owned(),
    }
}

// ---------------------------------------------------------------------------
// Replies
// ---------------------------------------------------------------------------

/// An entry that was seen to.
pub open spec fn entry_reply(path: Seq<char>, created: bool, date: CalendarDate) -> JsonView {
    JsonView::Object(
        no_fields().push(("path"@, JsonView::Text(path))).push(
            ("created"@, JsonView::Bool(created)),
        ).push(("date"@, JsonView::Text(iso_text(date)))),
    )
}

/// An entry that is to be opened.
pub open spec fn open_reply(path: Seq<char>, created: bool) -> JsonView {
    JsonView::Object(
        no_fields().push(("__diaryx_cli_action"@, JsonView::Text("open_entry"@))).push(
            ("path"@, JsonView::Text(path)),
        ).push(("created"@, JsonView::Bool(created))),
    )
}

/// An entry that is to be printed.
pub open spec fn print_reply(content: Seq<char>, path: Seq<char>, created: bool) -> JsonView {
    JsonView::Object(
        no_fields().push(("__diaryx_cli_action"@, JsonView::Text("print"@))).push(
            ("text"@, JsonView::Text(content)),
        ).push(("path"@, JsonView::Text(path))).push(("created"@, JsonView::Bool(created))),
    )
}

/// A path alone.
pub open spec fn path_reply(path: Seq<char>) -> JsonView {
    JsonView::Object(no_fields().push(("path"@, JsonView::Text(path))))
}

/// A file that is a daily entry.
pub open spec fn daily_state(date: CalendarDate, today: CalendarDate) -> JsonView {
    JsonView::Object(
        no_fields().push(("is_daily"@, JsonView::Bool(true))).push(
            ("is_today"@, JsonView::Bool(date == today)),
        ).push(("date"@, JsonView::Text(iso_text(date)))),
    )
}

/// A file that is none.
pub open spec fn other_state() -> JsonView {
    JsonView::Object(
        no_fields().push(("is_daily"@, JsonView::Bool(false))).push(
            ("is_today"@, JsonView::Bool(false)),
        ).push(("date"@, JsonView::Null)),
    )
}

/// The days of a month with an entry.
pub open spec fn days_reply(year: int, month: int, days: Seq<u32>, folder: Seq<char>) -> JsonView {
    JsonView::Object(
        no_fields().push(("year"@, JsonView::Int(year))).push(("month"@, JsonView::Int(month))).push(
            ("dates"@, JsonView::List(days.map_values(|d: u32| JsonView::Int(d as int)))),
        ).push(("folder"@, JsonView::Text(folder))),
    )
}

/// How an import went.
pub open spec fn import_reply(imported: nat, errors: Seq<Seq<char>>, dry_run: bool) -> JsonView {
    JsonView::Object(
        no_fields().push(("imported"@, JsonView::Int(imported as int))).push(
            ("errors"@, text_values(errors)),
        ).push(("dry_run"@, JsonView::Bool(dry_run))),
    )
}

/// What the replies hold under the names of their fields.
proof fn lemma_reply_names()
    ensures
        "path"@.len() == 4,
        "created"@.len() == 7,
        "date"@.len() == 4,
        "path"@ != "date"@,
        "text"@.len() == 4,
        "text"@ != "path"@,
        "year"@.len() == 4,
        "month"@.len() == 5,
        "dates"@.len() == 5,
        "month"@ != "dates"@,
        "folder"@.len() == 6,
        "is_daily"@.len() == 8,
        "is_today"@.len() == 8,
        "is_daily"@ != "is_today"@,
        "imported"@.len() == 8,
        "errors"@.len() == 6,
        "dry_run"@.len() == 7,
        "__diaryx_cli_action"@.len() == 19,
{
    reveal_strlit("path");
    reveal_strlit("created");
    reveal_strlit("date");
    reveal_strlit("text");
    reveal_strlit("year");
    reveal_strlit("month");
    reveal_strlit("dates");
    reveal_strlit("folder");
    reveal_strlit("is_daily");
    reveal_strlit("is_today");
    reveal_strlit("imported");
    reveal_strlit("errors");
    reveal_strlit("dry_run");
    reveal_strlit("__diaryx_cli_action");
    assert("path"@[0] == 'p' && "date"@[0] == 'd' && "text"@[0] == 't');
    assert("month"@[0] == 'm' && "dates"@[0] == 'd');
    assert("is_daily"@[3] == 'd' && "is_today"@[3] == 't');
}

/// The reply on an entry names its path and its date, and says whether it is new.
pub proof fn law_entry_reply(path: Seq<char>, created: bool, date: CalendarDate)
    ensures
        entry_reply(path, created, date).text_field("path"@) == Some(path),
        entry_reply(path, created, date).bool_field("created"@) == Some(created),
        entry_reply(path, created, date).text_field("date"@) == Some(iso_text(date)),
{
    lemma_reply_names();
    let a = ("path"@, JsonView::Text(path));
    let b = ("created"@, JsonView::Bool(created));
    let c = ("date"@, JsonView::Text(iso_text(date)));
    let keys = seq!["path"@, "created"@, "date"@];
    assert forall|k: int| 0 <= k < 3 implies #[trigger] first_field(
        no_fields().push(a).push(b).push(c),
        keys[k],
    ) == Some(seq![a.1, b.1, c.1][k]) by {
        law_field_pushed(no_fields(), a, keys[k]);
        law_field_pushed(no_fields().push(a), b, keys[k]);
        law_field_pushed(no_fields().push(a).push(b), c, keys[k]);
    }
    assert(keys[0] == "path"@ && keys[1] == "created"@ && keys[2] == "date"@);
}

/// The reply that opens an entry says so, names its path and says whether it is new.
pub proof fn law_open_reply(path: Seq<char>, created: bool)
    ensures
        open_reply(path, created).text_field("__diaryx_cli_action"@) == Some("open_entry"@),
        open_reply(path, created).text_field("path"@) == Some(path),
        open_reply(path, created).bool_field("created"@) == Some(created),
{
    lemma_reply_names();
    let a = ("__diaryx_cli_action"@, JsonView::Text("open_entry"@));
    let b = ("path"@, JsonView::Text(path));
    let c = ("created"@, JsonView::Bool(created));
    let keys = seq!["__diaryx_cli_action"@, "path"@, "created"@];
    assert forall|k: int| 0 <= k < 3 implies #[trigger] first_field(
        no_fields().push(a).push(b).push(c),
        keys[k],
    ) == Some(seq![a.1, b.1, c.1][k]) by {
        law_field_pushed(no_fields(), a, keys[k]);
        law_field_pushed(no_fields().push(a), b, keys[k]);
        law_field_pushed(no_fields().push(a).push(b), c, keys[k]);
    }
    assert(keys[0] == "__diaryx_cli_action"@ && keys[1] == "path"@ && keys[2] == "created"@);
}

/// The reply that prints an entry says so, holds its text, names its path and says
/// whether it is new.
pub proof fn law_print_reply(content: Seq<char>, path: Seq<char>, created: bool)
    ensures
        print_reply(content, path, created).text_field("__diaryx_cli_action"@) == Some("print"@),
        print_reply(content, path, created).text_field("text"@) == Some(content),
        print_reply(content, path, created).text_field("path"@) == Some(path),
        print_reply(content, path, created).bool_field("created"@) == Some(created),
{
    lemma_reply_names();
    let a = ("__diaryx_cli_action"@, JsonView::Text("print"@));
    let b = ("text"@, JsonView::Text(content));
    let c = ("path"@, JsonView::Text(path));
    let d = ("created"@, JsonView::Bool(created));
    let keys = seq!["__diaryx_cli_action"@, "text"@, "path"@, "created"@];
    assert forall|k: int| 0 <= k < 4 implies #[trigger] first_field(
        no_fields().push(a).push(b).push(c).push(d),
        keys[k],
    ) == Some(seq![a.1, b.1, c.1, d.1][k]) by {
        law_field_pushed(no_fields(), a, keys[k]);
        law_field_pushed(no_fields().push(a), b, keys[k]);
        law_field_pushed(no_fields().push(a).push(b), c, keys[k]);
        law_field_pushed(no_fields().push(a).push(b).push(c), d, keys[k]);
    }
    assert(keys[0] == "__diaryx_cli_action"@ && keys[1] == "text"@ && keys[2] == "path"@ && keys[3]
        == "created"@);
}

/// The reply with a path alone names it, and says nothing of an entry.
pub proof fn law_path_reply(path: Seq<char>)
    ensures
        path_reply(path).text_field("path"@) == Some(path),
        path_reply(path).field("created"@) is None,
        path_reply(path).field("date"@) is None,
{
    lemma_reply_names();
    let a = ("path"@, JsonView::Text(path));
    law_field_pushed(no_fields(), a, "path"@);
    law_field_pushed(no_fields(), a, "created"@);
    law_field_pushed(no_fields(), a, "date"@);
}

/// The reply on a file says whether it is a daily entry, and of which date, and
/// whether of today.
pub proof fn law_state_replies(date: CalendarDate, today: CalendarDate)
    ensures
        daily_state(date, today).bool_field("is_daily"@) == Some(true),
        daily_state(date, today).bool_field("is_today"@) == Some(date == today),
        daily_state(date, today).text_field("date"@) == Some(iso_text(date)),
        other_state().bool_field("is_daily"@) == Some(false),
        other_state().bool_field("is_today"@) == Some(false),
        other_state().field("date"@) == Some(JsonView::Null),
{
    lemma_reply_names();
    let a = ("is_daily"@, JsonView::Bool(true));
    let b = ("is_today"@, JsonView::Bool(date == today));
    let c = ("date"@, JsonView::Text(iso_text(date)));
    let keys = seq!["is_daily"@, "is_today"@, "date"@];
    assert forall|k: int| 0 <= k < 3 implies #[trigger] first_field(
        no_fields().push(a).push(b).push(c),
        keys[k],
    ) == Some(seq![a.1, b.1, c.1][k]) by {
        law_field_pushed(no_fields(), a, keys[k]);
        law_field_pushed(no_fields().push(a), b, keys[k]);
        law_field_pushed(no_fields().push(a).push(b), c, keys[k]);
    }
    let x = ("is_daily"@, JsonView::Bool(false));
    let y = ("is_today"@, JsonView::Bool(false));
    let z = ("date"@, JsonView::Null);
    assert forall|k: int| 0 <= k < 3 implies #[trigger] first_field(
        no_fields().push(x).push(y).push(z),
        keys[k],
    ) == Some(seq![x.1, y.1, z.1][k]) by {
        law_field_pushed(no_fields(), x, keys[k]);
        law_field_pushed(no_fields().push(x), y, keys[k]);
        law_field_pushed(no_fields().push(x).push(y), z, keys[k]);
    }
    assert(keys[0] == "is_daily"@ && keys[1] == "is_today"@ && keys[2] == "date"@);
}

/// The reply on a month holds its year, its number, its days and the folder.
pub proof fn law_days_reply(year: int, month: int, days: Seq<u32>, folder: Seq<char>)
    ensures
        days_reply(year, month, days, folder).field("year"@) == Some(JsonView::Int(year)),
        days_reply(year, month, days, folder).field("month"@) == Some(JsonView::Int(month)),
        days_reply(year, month, days, folder).text_field("folder"@) == Some(folder),
        days_reply(year, month, days, folder).list_field("dates"@).len() == days.len(),
        forall|i: int|
            0 <= i < days.len() ==> (#[trigger] days_reply(year, month, days, folder).list_field(
                "dates"@,
            )[i]) == JsonView::Int(days[i] as int),
{
    lemma_reply_names();
    let a = ("year"@, JsonView::Int(year));
    let b = ("month"@, JsonView::Int(month));
    let c = ("dates"@, JsonView::List(days.map_values(|d: u32| JsonView::Int(d as int))));
    let d = ("folder"@, JsonView::Text(folder));
    let keys = seq!["year"@, "month"@, "dates"@, "folder"@];
    assert forall|k: int| 0 <= k < 4 implies #[trigger] first_field(
        no_fields().push(a).push(b).push(c).push(d),
        keys[k],
    ) == Some(seq![a.1, b.1, c.1, d.1][k]) by {
        law_field_pushed(no_fields(), a, keys[k]);
        law_field_pushed(no_fields().push(a), b, keys[k]);
        law_field_pushed(no_fields().push(a).push(b), c, keys[k]);
        law_field_pushed(no_fields().push(a).push(b).push(c), d, keys[k]);
    }
    assert(keys[0] == "year"@ && keys[1] == "month"@ && keys[2] == "dates"@ && keys[3]
        == "folder"@);
}

/// The reply on an import holds how many entries were imported, the messages of
/// those that failed, and whether it was a dry run.
pub proof fn law_import_reply(imported: nat, errors: Seq<Seq<char>>, dry_run: bool)
    ensures
        import_reply(imported, errors, dry_run).field("imported"@) == Some(
            JsonView::Int(imported as int),
        ),
        import_reply(imported, errors, dry_run).bool_field("dry_run"@) == Some(dry_run),
        import_reply(imported, errors, dry_run).list_field("errors"@).len() == errors.len(),
        forall|i: int|
            0 <= i < errors.len() ==> (#[trigger] import_reply(imported, errors, dry_run).list_field(
                "errors"@,
            )[i]) == JsonView::Text(errors[i]),
{
    lemma_reply_names();
    let a = ("imported"@, JsonView::Int(imported as int));
    let b = ("errors"@, text_values(errors));
    let c = ("dry_run"@, JsonView::Bool(dry_run));
    let keys = seq!["imported"@, "errors"@, "dry_run"@];
    assert forall|k: int| 0 <= k < 3 implies #[trigger] first_field(
        no_fields().push(a).push(b).push(c),
        keys[k],
    ) == Some(seq![a.1, b.1, c.1][k]) by {
        law_field_pushed(no_fields(), a, keys[k]);
        law_field_pushed(no_fields().push(a), b, keys[k]);
        law_field_pushed(no_fields().push(a).push(b), c, keys[k]);
    }
    assert(keys[0] == "imported"@ && keys[1] == "errors"@ && keys[2] == "dry_run"@);
}

fn tell_entry(path: String, created: bool, date: CalendarDate) -> (r: Json)
    requires
        date.valid(),
    ensures
        r@ == entry_reply(path@, created, date),
{
    Fields::new().with("path", text(path)).with("created", truth(created)).with(
        "date",
        text(format_date(date, ISO_PATTERN)),
    ).into_json()
}

fn tell_open(path: String, created: bool) -> (r: Json)
    ensures
        r@ == open_reply(path@, created),
{
    Fields::new().with("__diaryx_cli_action", words("open_entry")).with("path", text(path)).with(
        "created",
        truth(created),
    ).into_json()
}

fn tell_print(content: String, path: String, created: bool) -> (r: Json)
    ensures
        r@ == print_reply(content@, path@, created),
{
    Fields::new().with("__diaryx_cli_action", words("print")).with("text", text(content)).with(
        "path",
        text(path),
    ).with("created", truth(created)).into_json()
}

fn tell_path(path: String) -> (r: Json)
    ensures
        r@ == path_reply(path@),
{
    Fields::new().with("path", text(path)).into_json()
}

fn tell_days(year: i32, month: u32, days: &Vec<u32>, folder: String) -> (r: Json)
    ensures
        r@ == days_reply(year as int, month as int, days@, folder@),
{
    let mut dates: Vec<Json> = Vec::new();
    let mut i: usize = 0;
    while i < days.len()
        invariant
            i <= days@.len(),
            dates@.len() == i,
            forall|k: int| 0 <= k < i ==> (#[trigger] dates@[k])@ == JsonView::Int(days@[k] as int),
        decreases days@.len() - i,
    {
        dates.push(number(days[i] as i128));
        i = i + 1;
    }
    assert(crate::json::json_views(dates@) =~= days@.map_values(
        |d: u32| JsonView::Int(d as int),
    ));
    Fields::new().with("year", number(year as i128)).with("month", number(month as i128)).with(
        "dates",
        list(dates),
    ).with("folder", text(folder)).into_json()
}

fn tell_import(imported: usize, errors: &Vec<String>, dry_run: bool) -> (r: Json)
    ensures
        r@ == import_reply(imported as nat, views(errors@), dry_run),
{
    Fields::new().with("imported", number(imported as i128)).with("errors", texts(errors)).with(
        "dry_run",
        truth(dry_run),
    ).into_json()
}

// ---------------------------------------------------------------------------
// Commands on one entry
// ---------------------------------------------------------------------------

/// The outcome of a result that is a value.
pub open spec fn json_outcome(r: Result<Json, Stop>) -> Outcome<JsonView> {
    match r {
        Ok(value) => Outcome::Got(value@),
        Err(Stop::Fail(message)) => Outcome::Failed(message@),
        Err(Stop::Ask(action)) => Outcome::Waiting(action@),
    }
}

/// The date that the user gave, or today.
pub open spec fn given_date(given: Option<Seq<char>>, now: LocalDateTime) -> Outcome<CalendarDate> {
    match any_input_date(input_text(given), now) {
        Some(date) => Outcome::Got(date),
        None => Outcome::Failed("Invalid date format: "@ + input_text(given)),
    }
}

fn read_given(given: Option<&str>, now: &LocalDateTime) -> (r: Result<CalendarDate, Stop>)
    requires
        now.valid(),
    ensures
        outcome(r) == given_date(opt_view(given), *now),
        r matches Ok(d) ==> d.valid(),
{
    match read_date_input(given, now) {
        Ok(date) => Ok(date),
        Err(e) => Err(Stop::Fail(e.message())),
    }
}

/// Asks for the time, and reads the date that the user gave.
pub open spec fn date_asked(s: Talk, given: Option<Seq<char>>) -> (Talk, Outcome<CalendarDate>) {
    let (s1, o1) = now_asked(s);
    match o1 {
        Outcome::Got(now) => (s1, given_date(given, now)),
        _ => (s1, stopped(o1)),
    }
}

fn ask_date(session: &mut Session, given: Option<&str>) -> (r: Result<CalendarDate, Stop>)
    ensures
        (final(session)@, outcome(r)) == date_asked(old(session)@, opt_view(given)),
        r matches Ok(d) ==> d.valid(),
{
    match session.now() {
        Ok(now) => read_given(given, &now),
        Err(stop) => Err(stop),
    }
}

/// `EnsureDailyEntry`.
pub open spec fn ensure_command(s: Talk, st: StateView, params: JsonView) -> (
    Talk,
    Outcome<JsonView>,
) {
    let (s1, o1) = date_asked(s, params.text_field("date"@));
    match o1 {
        Outcome::Got(date) => {
            let (s2, o2) = entry_ensured(s1, st, date);
            match o2 {
                Outcome::Got((path, created)) => (
                    s2,
                    Outcome::Got(entry_reply(path, created, date)),
                ),
                _ => (s2, stopped(o2)),
            }
        },
        _ => (s1, stopped(o1)),
    }
}

fn run_ensure(session: &mut Session, state: &DailyState, params: &Json) -> (r: Result<Json, Stop>)
    ensures
        (final(session)@, json_outcome(r)) == ensure_command(old(session)@, state@, params@),
{
    let date = match ask_date(session, params.get_str("date")) {
        Ok(date) => date,
        Err(stop) => return Err(stop),
    };
    match ensure_daily_entry_for_date(session, date, state) {
        Ok((path, created)) => Ok(tell_entry(path, created, date)),
        Err(stop) => Err(stop),
    }
}

/// The direction that a command asks for.
pub open spec fn asked_direction(params: JsonView) -> DailyDirection {
    if params.text_field("direction"@) == Some("prev"@) || params.text_field("direction"@) == Some(
        "previous"@,
    ) {
        DailyDirection::Prev
    } else {
        DailyDirection::Next
    }
}

/// `GetAdjacentDailyEntry`.
pub open spec fn adjacent_command(s: Talk, st: StateView, params: JsonView) -> (
    Talk,
    Outcome<JsonView>,
) {
    match params.text_field("path"@) {
        Some(path) => match adjacent_path(workspace_rel(path, st.root), asked_direction(params)) {
            Some(adjacent) => if params.bool_field("ensure"@) != Some(false) {
                match date_of_path(adjacent) {
                    Some(date) => {
                        let (s1, o1) = entry_ensured(s, st, date);
                        match o1 {
                            Outcome::Got((path, created)) => (
                                s1,
                                Outcome::Got(entry_reply(path, created, date)),
                            ),
                            _ => (s1, stopped(o1)),
                        }
                    },
                    None => (s, Outcome::Failed("Path is not a daily entry path"@)),
                }
            } else {
                (s, Outcome::Got(path_reply(adjacent)))
            },
            None => (s, Outcome::Failed("Path is not a daily entry path"@)),
        },
        None => (s, Outcome::Failed("GetAdjacentDailyEntry requires `path`"@)),
    }
}

fn run_adjacent(session: &mut Session, state: &DailyState, params: &Json) -> (r: Result<Json, Stop>)
    ensures
        (final(session)@, json_outcome(r)) == adjacent_command(old(session)@, state@, params@),
{
    let input_path = match params.get_str("path") {
        Some(path) => path,
        None => return Err(Stop::Fail("GetAdjacentDailyEntry requires `path`".to_owned())),
    };
    let direction = match params.get_str("direction") {
        Some(name) => if same_text(name, "prev") || same_text(name, "previous") {
            DailyDirection::Prev
        } else {
            DailyDirection::Next
        },
        None => DailyDirection::Next,
    };
    let ensure = match params.get_bool("ensure") {
        Some(b) => b,
        None => true,
    };
    let rel_input = to_workspace_rel(input_path, state.root());
    let adjacent = match adjacent_daily_entry_path(rel_input.as_str(), direction) {
        Ok(path) => path,
        Err(e) => return Err(Stop::Fail(e.message())),
    };
    if !ensure {
        return Ok(tell_path(adjacent));
    }
    let date = match path_to_date(adjacent.as_str()) {
        Ok(date) => date,
        Err(e) => return Err(Stop::Fail(e.message())),
    };
    match ensure_daily_entry_for_date(session, date, state) {
        Ok((path, created)) => Ok(tell_entry(path, created, date)),
        Err(stop) => Err(stop),
    }
}

/// `GetEntryState`.
pub open spec fn state_command(s: Talk, st: StateView, params: JsonView) -> (
    Talk,
    Outcome<JsonView>,
) {
    match params.text_field("path"@) {
        Some(path) => match date_of_path(workspace_rel(path, st.root)) {
            Some(date) => {
                let (s1, o1) = now_asked(s);
                match o1 {
                    Outcome::Got(now) => (s1, Outcome::Got(daily_state(date, now.date))),
                    _ => (s1, stopped(o1)),
                }
            },
            None => (s, Outcome::Got(other_state())),
        },
        None => (s, Outcome::Failed("GetEntryState requires `path`"@)),
    }
}

fn run_state(session: &mut Session, state: &DailyState, params: &Json) -> (r: Result<Json, Stop>)
    ensures
        (final(session)@, json_outcome(r)) == state_command(old(session)@, state@, params@),
{
    let input_path = match params.get_str("path") {
        Some(path) => path,
        None => return Err(Stop::Fail("GetEntryState requires `path`".to_owned())),
    };
    let rel_path = to_workspace_rel(input_path, state.root());
    match path_to_date(rel_path.as_str()) {
        Ok(date) => match session.now() {
            Ok(now) => Ok(
                Fields::new().with("is_daily", truth(true)).with(
                    "is_today",
                    truth(date == now.date),
                ).with("date", text(format_date(date, ISO_PATTERN))).into_json(),
            ),
            Err(stop) => Err(stop),
        },
        Err(_) => Ok(
            Fields::new().with("is_daily", truth(false)).with("is_today", truth(false)).with(
                "date",
                nothing(),
            ).into_json(),
        ),
    }
}

/// `OpenToday` and `OpenYesterday`.
pub open spec fn open_command(s: Talk, st: StateView, yesterday: bool) -> (
    Talk,
    Outcome<JsonView>,
) {
    let (s1, o1) = now_asked(s);
    match o1 {
        Outcome::Got(now) => {
            let date = if yesterday {
                now.date.previous()
            } else {
                now.date
            };
            let (s2, o2) = entry_ensured(s1, st, date);
            match o2 {
                Outcome::Got((path, created)) => (s2, Outcome::Got(open_reply(path, created))),
                _ => (s2, stopped(o2)),
            }
        },
        _ => (s1, stopped(o1)),
    }
}

fn day_before(now: &LocalDateTime) -> (r: CalendarDate)
    requires
        now.valid(),
    ensures
        r == now.date.previous(),
        r.valid(),
{
    proof {
        law_previous_day(now.date);
        law_number_range(now.date.previous());
    }
    match shift_days(now.date, -1) {
        Some(date) => {
            proof {
                law_number_identifies(date, now.date.previous());
            }
            date
        },
        None => now.date,
    }
}

fn run_open(session: &mut Session, state: &DailyState, yesterday: bool) -> (r: Result<Json, Stop>)
    ensures
        (final(session)@, json_outcome(r)) == open_command(old(session)@, state@, yesterday),
{
    let now = match session.now() {
        Ok(now) => now,
        Err(stop) => return Err(stop),
    };
    let date = if yesterday {
        day_before(&now)
    } else {
        now.date
    };
    match ensure_daily_entry_for_date(session, date, state) {
        Ok((path, created)) => Ok(tell_open(path, created)),
        Err(stop) => Err(stop),
    }
}

/// `CliDaily`.
pub open spec fn cli_command(s: Talk, st: StateView, params: JsonView) -> (
    Talk,
    Outcome<JsonView>,
) {
    let (s1, o1) = date_asked(s, params.text_field("date"@));
    match o1 {
        Outcome::Got(date) => {
            let (s2, o2) = entry_ensured(s1, st, date);
            match o2 {
                Outcome::Got((path, created)) => if params.bool_field("print"@) == Some(true) {
                    let (s3, o3) = read_asked(s2, st.at(path));
                    match o3 {
                        Outcome::Got(content) => (
                            s3,
                            Outcome::Got(print_reply(content, path, created)),
                        ),
                        _ => (s3, stopped(o3)),
                    }
                } else {
                    (s2, Outcome::Got(open_reply(path, created)))
                },
                _ => (s2, stopped(o2)),
            }
        },
        _ => (s1, stopped(o1)),
    }
}

fn run_cli(session: &mut Session, state: &DailyState, params: &Json) -> (r: Result<Json, Stop>)
    ensures
        (final(session)@, json_outcome(r)) == cli_command(old(session)@, state@, params@),
{
    let date = match ask_date(session, params.get_str("date")) {
        Ok(date) => date,
        Err(stop) => return Err(stop),
    };
    let print = match params.get_bool("print") {
        Some(b) => b,
        None => false,
    };
    let (path, created) = match ensure_daily_entry_for_date(session, date, state) {
        Ok(value) => value,
        Err(stop) => return Err(stop),
    };
    if print {
        let fs_path = state.at(path.as_str());
        match session.read_file(fs_path.as_str()) {
            Ok(content) => Ok(tell_print(content, path, created)),
            Err(stop) => Err(stop),
        }
    } else {
        Ok(tell_open(path, created))
    }
}

/// `ListDailyEntryDates`. The year and the month are cut to 32 bits.
pub open spec fn list_command(s: Talk, st: StateView, params: JsonView) -> (
    Talk,
    Outcome<JsonView>,
) {
    match params.int_field("year"@) {
        Some(y) => match params.int_field("month"@) {
            Some(m) => {
                let year = y as i64 as i32;
                let month = m as i64 as u32;
                if 1 <= month <= 12 {
                    let (s1, o1) = days_found(s, st, year as int, month as nat);
                    match o1 {
                        Outcome::Got(days) => (
                            s1,
                            Outcome::Got(
                                days_reply(year as int, month as int, days, st.folder()),
                            ),
                        ),
                        _ => (s1, stopped(o1)),
                    }
                } else {
                    (s, Outcome::Failed("month must be 1-12"@))
                }
            },
            None => (s, Outcome::Failed("ListDailyEntryDates requires `month`"@)),
        },
        None => (s, Outcome::Failed("ListDailyEntryDates requires `year`"@)),
    }
}

fn run_list(session: &mut Session, state: &DailyState, params: &Json) -> (r: Result<Json, Stop>)
    ensures
        (final(session)@, json_outcome(r)) == list_command(old(session)@, state@, params@),
{
    let year: i32 = match params.get_i64("year") {
        Some(n) => n as i32,
        None => return Err(Stop::Fail("ListDailyEntryDates requires `year`".to_owned())),
    };
    let month: u32 = match params.get_i64("month") {
        Some(n) => n as u32,
        None => return Err(Stop::Fail("ListDailyEntryDates requires `month`".to_owned())),
    };
    if month < 1 || month > 12 {
        return Err(Stop::Fail("month must be 1-12".to_owned()));
    }
    match find_days(session, state, year, month) {
        Ok(days) => Ok(tell_days(year, month, &days, state.config.effective_entry_folder())),
        Err(stop) => Err(stop),
    }
}

// ---------------------------------------------------------------------------
// Import
// ---------------------------------------------------------------------------

/// What became of an entry of an import.
pub enum Import {
    /// It names no file.
    Skipped,
    Done,
    /// It failed, with a message.
    Failed(String),
}

/// What became of an entry of an import.
pub enum ImportView {
    Skipped,
    Done,
    Failed(Seq<char>),
}

impl View for Import {
    type V = ImportView;

    open spec fn view(&self) -> ImportView {
        match self {
            Import::Skipped => ImportView::Skipped,
            Import::Done => ImportView::Done,
            Import::Failed(message) => ImportView::Failed(message@),
        }
    }
}

/// The outcome of a result that is an import.
pub open spec fn import_outcome(r: Result<Import, Stop>) -> Outcome<ImportView> {
    match r {
        Ok(value) => Outcome::Got(value@),
        Err(Stop::Fail(message)) => Outcome::Failed(message@),
        Err(Stop::Ask(action)) => Outcome::Waiting(action@),
    }
}

/// The file that an entry of an import names: the entry itself, or its path.
pub open spec fn import_path(entry: JsonView) -> Seq<char> {
    match entry {
        JsonView::Text(path) => path,
        _ => match entry.text_field("path"@) {
            Some(path) => path,
            None => Seq::empty(),
        },
    }
}

/// The failure of one entry.
pub open spec fn import_failed(rel: Seq<char>, message: Seq<char>) -> ImportView {
    ImportView::Failed(rel + ": "@ + message)
}

/// The date of an entry of an import: the one that is given, or the one that
/// belongs to the file.
pub open spec fn import_date(s: Talk, st: StateView, entry: JsonView, rel: Seq<char>) -> (
    Talk,
    Outcome<Result<CalendarDate, Seq<char>>>,
) {
    let (s1, o1) = now_asked(s);
    match o1 {
        Outcome::Got(now) => match entry.text_field("date"@) {
            Some(given) => match given_date(Some(given), now) {
                Outcome::Got(date) => (s1, Outcome::Got(Ok(date))),
                Outcome::Failed(e) => (s1, Outcome::Got(Err(e))),
                Outcome::Waiting(ask) => (s1, Outcome::Waiting(ask)),
            },
            None => {
                let (s2, o2) = date_inferred(s1, st, rel);
                match o2 {
                    Outcome::Got(date) => (s2, Outcome::Got(Ok(date))),
                    Outcome::Failed(e) => (s2, Outcome::Got(Err(e))),
                    Outcome::Waiting(ask) => (s2, Outcome::Waiting(ask)),
                }
            },
        },
        _ => (s1, stopped(o1)),
    }
}

/// Links a file and the entry that it is imported to.
pub open spec fn import_linked(s: Talk, st: StateView, rel: Seq<char>, daily: Seq<char>) -> (
    Talk,
    Outcome<ImportView>,
) {
    let (s1, o1) = parent_set(s, st, rel, daily);
    match o1 {
        Outcome::Got(_) => {
            let (s2, o2) = contents_added(s1, st, daily, rel);
            match o2 {
                Outcome::Got(_) => (s2, Outcome::Got(ImportView::Done)),
                Outcome::Failed(e) => (s2, Outcome::Got(import_failed(rel, e))),
                Outcome::Waiting(ask) => (s2, Outcome::Waiting(ask)),
            }
        },
        Outcome::Failed(e) => (s1, Outcome::Got(import_failed(rel, e))),
        Outcome::Waiting(ask) => (s1, Outcome::Waiting(ask)),
    }
}

/// Imports one entry: sees to the daily entry of its date, and links the two
/// unless it is a dry run. Only a failure to tell the time ends the import.
pub open spec fn entry_imported(s: Talk, st: StateView, entry: JsonView, dry_run: bool) -> (
    Talk,
    Outcome<ImportView>,
) {
    let path = import_path(entry);
    let rel = workspace_rel(path, st.root);
    if trimmed(path).len() == 0 {
        (s, Outcome::Got(ImportView::Skipped))
    } else {
        let (s1, o1) = import_date(s, st, entry, rel);
        match o1 {
            Outcome::Got(Ok(date)) => {
                let (s2, o2) = entry_ensured(s1, st, date);
                match o2 {
                    Outcome::Got((daily, _)) => if dry_run {
                        (s2, Outcome::Got(ImportView::Done))
                    } else {
                        import_linked(s2, st, rel, daily)
                    },
                    Outcome::Failed(e) => (s2, Outcome::Got(import_failed(rel, e))),
                    Outcome::Waiting(ask) => (s2, Outcome::Waiting(ask)),
                }
            },
            Outcome::Got(Err(e)) => (s1, Outcome::Got(import_failed(rel, e))),
            _ => (s1, stopped(o1)),
        }
    }
}

fn failed(rel: &str, message: String) -> (r: Import)
    ensures
        r@ == import_failed(rel@, message@),
{
    Import::Failed(concat(concat(rel, ": ").as_str(), message.as_str()))
}

/// A date or a message.
pub open spec fn date_result(r: Result<CalendarDate, String>) -> Result<CalendarDate, Seq<char>> {
    match r {
        Ok(date) => Ok(date),
        Err(e) => Err(e@),
    }
}

/// The outcome of a result that is a date or a message.
pub open spec fn date_outcome(r: Result<Result<CalendarDate, String>, Stop>) -> Outcome<
    Result<CalendarDate, Seq<char>>,
> {
    match r {
        Ok(value) => Outcome::Got(date_result(value)),
        Err(Stop::Fail(message)) => Outcome::Failed(message@),
        Err(Stop::Ask(action)) => Outcome::Waiting(action@),
    }
}

fn find_import_date(session: &mut Session, state: &DailyState, entry: &Json, rel: &str) -> (r:
    Result<Result<CalendarDate, String>, Stop>)
    ensures
        (final(session)@, date_outcome(r)) == import_date(old(session)@, state@, entry@, rel@),
        r matches Ok(Ok(date)) ==> date.valid(),
{
    let now = match session.now() {
        Ok(now) => now,
        Err(stop) => return Err(stop),
    };
    let found = match entry.get_str("date") {
        Some(given) => read_given(Some(given), &now),
        None => infer_entry_date(session, rel, state),
    };
    match found {
        Ok(date) => Ok(Ok(date)),
        Err(Stop::Fail(e)) => Ok(Err(e)),
        Err(Stop::Ask(action)) => Err(Stop::Ask(action)),
    }
}

fn link_import(session: &mut Session, state: &DailyState, rel: &str, daily: &str) -> (r: Result<
    Import,
    Stop,
>)
    ensures
        (final(session)@, import_outcome(r)) == import_linked(
            old(session)@,
            state@,
            rel@,
            daily@,
        ),
{
    match set_part_of(session, state, rel, daily) {
        Ok(_) => {},
        Err(Stop::Fail(e)) => return Ok(failed(rel, e)),
        Err(Stop::Ask(action)) => return Err(Stop::Ask(action)),
    }
    match add_to_contents(session, state, daily, rel) {
        Ok(_) => Ok(Import::Done),
        Err(Stop::Fail(e)) => Ok(failed(rel, e)),
        Err(Stop::Ask(action)) => Err(Stop::Ask(action)),
    }
}

/// Imports one entry.
pub fn import_entry(session: &mut Session, state: &DailyState, entry: &Json, dry_run: bool) -> (r:
    Result<Import, Stop>)
    ensures
        (final(session)@, import_outcome(r)) == entry_imported(
            old(session)@,
            state@,
            entry@,
            dry_run,
        ),
{
    let none = "";
    proof {
        reveal_strlit("");
        assert(none@ =~= Seq::empty());
    }
    let path: &str = match entry.as_str() {
        Some(path) => path,
        None => match entry.get_str("path") {
            Some(path) => path,
            None => none,
        },
    };
    if trim(path).as_str().is_empty() {
        return Ok(Import::Skipped);
    }
    let rel = to_workspace_rel(path, state.root());
    let date = match find_import_date(session, state, entry, rel.as_str()) {
        Ok(Ok(date)) => date,
        Ok(Err(e)) => return Ok(failed(rel.as_str(), e)),
        Err(stop) => return Err(stop),
    };
    let daily = match ensure_daily_entry_for_date(session, date, state) {
        Ok((daily, _)) => daily,
        Err(Stop::Fail(e)) => return Ok(failed(rel.as_str(), e)),
        Err(Stop::Ask(action)) => return Err(Stop::Ask(action)),
    };
    if dry_run {
        Ok(Import::Done)
    } else {
        link_import(session, state, rel.as_str(), daily.as_str())
    }
}

// ---------------------------------------------------------------------------
// Running commands
// ---------------------------------------------------------------------------

/// How far a command has come. An import starts a new session for each entry.
#[derive(Debug)]
pub struct Progress {
    pub session: Session,
    /// The entries that an import is done with.
    pub next: usize,
    /// Those of them that were imported.
    pub imported: usize,
    /// The messages of those that failed.
    pub errors: Vec<String>,
}

/// How far a command has come.
#[verifier::ext_equal]
pub struct ProgressView {
    pub talk: Talk,
    pub next: nat,
    pub imported: nat,
    pub errors: Seq<Seq<char>>,
}

impl View for Progress {
    type V = ProgressView;

    open spec fn view(&self) -> ProgressView {
        ProgressView {
            talk: self.session@,
            next: self.next as nat,
            imported: self.imported as nat,
            errors: views(self.errors@),
        }
    }
}

impl ProgressView {
    /// No entry counts twice.
    pub open spec fn valid(self) -> bool {
        self.imported + self.errors.len() <= self.next
    }

    /// The progress in another session.
    pub open spec fn in_talk(self, talk: Talk) -> ProgressView {
        ProgressView { talk, ..self }
    }

    /// The progress with one more entry of an import.
    pub open spec fn counted(self, import: ImportView) -> ProgressView {
        ProgressView {
            talk: Talk { replies: Seq::empty(), asked: Seq::empty() },
            next: self.next + 1,
            imported: match import {
                ImportView::Done => self.imported + 1,
                _ => self.imported,
            },
            errors: match import {
                ImportView::Failed(message) => self.errors.push(message),
                _ => self.errors,
            },
        }
    }
}

/// One step of an import.
pub open spec fn import_step(p: ProgressView, st: StateView, entry: JsonView, dry_run: bool) -> (
    ProgressView,
    Outcome<()>,
) {
    let (t, o) = entry_imported(p.talk.fresh(), st, entry, dry_run);
    match o {
        Outcome::Got(import) => (p.counted(import), Outcome::Got(())),
        _ => (p.in_talk(t), stopped(o)),
    }
}

/// `ImportEntriesToDaily`, from where it stands.
pub open spec fn import_run(
    p: ProgressView,
    st: StateView,
    entries: Seq<JsonView>,
    dry_run: bool,
) -> (ProgressView, Outcome<JsonView>)
    decreases entries.len() - p.next,
{
    if p.next >= entries.len() {
        (p, Outcome::Got(import_reply(p.imported, p.errors, dry_run)))
    } else {
        let (q, o) = import_step(p, st, entries[p.next as int], dry_run);
        match o {
            Outcome::Got(_) => import_run(q, st, entries, dry_run),
            _ => (q, stopped(o)),
        }
    }
}

/// How many entries of an import name a file.
pub open spec fn naming_entries(entries: Seq<JsonView>) -> nat
    decreases entries.len(),
{
    if entries.len() == 0 {
        0
    } else {
        naming_entries(entries.drop_first()) + if trimmed(import_path(entries[0])).len() > 0 {
            1nat
        } else {
            0nat
        }
    }
}

/// At every point of an import each entry so far that names a file was imported or
/// has a message. When it ends this is so of all entries, and the reply tells both.
pub proof fn law_import_counts(
    p: ProgressView,
    st: StateView,
    entries: Seq<JsonView>,
    dry_run: bool,
)
    requires
        p.next <= entries.len(),
        p.imported + p.errors.len() == naming_entries(entries.take(p.next as int)),
    ensures
        ({
            let (q, o) = import_run(p, st, entries, dry_run);
            &&& q.next <= entries.len()
            &&& q.imported + q.errors.len() == naming_entries(entries.take(q.next as int))
            &&& o is Got ==> o == Outcome::Got(import_reply(q.imported, q.errors, dry_run))
                && q.imported + q.errors.len() == naming_entries(entries)
        }),
    decreases entries.len() - p.next,
{
    if p.next >= entries.len() {
        assert(entries.take(p.next as int) =~= entries);
    } else {
        let (q, o) = import_step(p, st, entries[p.next as int], dry_run);
        lemma_naming_entry(entries, p.next as int);
        if o is Got {
            lemma_import_kind(p.talk.fresh(), st, entries[p.next as int], dry_run);
            law_import_counts(q, st, entries, dry_run);
        }
    }
}

proof fn lemma_naming_entry(entries: Seq<JsonView>, n: int)
    requires
        0 <= n < entries.len(),
    ensures
        naming_entries(entries.take(n + 1)) == naming_entries(entries.take(n)) + if trimmed(
            import_path(entries[n]),
        ).len() > 0 {
            1nat
        } else {
            0nat
        },
    decreases n,
{
    let (a, b) = (entries.take(n), entries.take(n + 1));
    if n == 0 {
        assert(b.drop_first() =~= a);
    } else {
        let rest = entries.drop_first();
        lemma_naming_entry(rest, n - 1);
        assert(a.drop_first() =~= rest.take(n - 1));
        assert(b.drop_first() =~= rest.take(n));
    }
}

/// An entry is skipped just when it names no file.
proof fn lemma_import_kind(s: Talk, st: StateView, entry: JsonView, dry_run: bool)
    ensures
        entry_imported(s, st, entry, dry_run).1 matches Outcome::Got(import) ==> (import is Skipped
            <==> trimmed(import_path(entry)).len() == 0),
{
}

/// A command that needs the host and does not change the state.
pub open spec fn plain_command(
    s: Talk,
    st: StateView,
    command: Seq<char>,
    params: JsonView,
    panel: Seq<char>,
) -> (Talk, Outcome<JsonView>) {
    if command == "EnsureDailyEntry"@ {
        ensure_command(s, st, params)
    } else if command == "GetAdjacentDailyEntry"@ {
        adjacent_command(s, st, params)
    } else if command == "GetEntryState"@ {
        state_command(s, st, params)
    } else if command == "OpenToday"@ {
        open_command(s, st, false)
    } else if command == "OpenYesterday"@ {
        open_command(s, st, true)
    } else if command == "CliDaily"@ {
        cli_command(s, st, params)
    } else if command == "ListDailyEntryDates"@ {
        list_command(s, st, params)
    } else if command == "get_component_html"@ {
        match component(component_id(params), panel) {
            Ok(html) => (s, Outcome::Got(JsonView::Text(html))),
            Err(message) => (s, Outcome::Failed(message)),
        }
    } else {
        (s, Outcome::Failed("Unknown command: "@ + command))
    }
}

/// The same result with the state as it is.
pub open spec fn in_state(o: Outcome<JsonView>, st: StateView) -> Outcome<(JsonView, StateView)> {
    match o {
        Outcome::Got(value) => Outcome::Got((value, st)),
        _ => stopped(o),
    }
}

/// A command, from where it stands: its result, and the state after it.
pub open spec fn command_run(
    p: ProgressView,
    st: StateView,
    command: Seq<char>,
    params: JsonView,
    panel: Seq<char>,
) -> (ProgressView, Outcome<(JsonView, StateView)>) {
    if command == "ImportEntriesToDaily"@ {
        let (q, o) = import_run(
            p,
            st,
            params.list_field("entries"@),
            params.bool_field("dry_run"@) == Some(true),
        );
        (q, in_state(o, st))
    } else if command == "UpdateConfig"@ {
        let (t, o) = config_updated(p.talk.fresh(), st, params);
        (p.in_talk(t), o)
    } else {
        let (t, o) = plain_command(p.talk.fresh(), st, command, params, panel);
        (p.in_talk(t), in_state(o, st))
    }
}

impl Progress {
    /// The start of a command.
    pub fn new() -> (r: Progress)
        ensures
            r@.valid(),
            r@ == (ProgressView {
                talk: Talk { replies: Seq::<Answer>::empty(), asked: Seq::<Ask>::empty() },
                next: 0,
                imported: 0,
                errors: Seq::<Seq<char>>::empty(),
            }),
    {
        let r = Progress { session: Session::new(), next: 0, imported: 0, errors: Vec::new() };
        assert(r@.errors =~= Seq::<Seq<char>>::empty());
        r
    }

    /// Takes in the reply to the request that the command waits for.
    pub fn answer(&mut self, reply: crate::session::Reply)
        ensures
            final(self)@ == old(self)@.in_talk(
                Talk { replies: old(self)@.talk.replies.push(reply@), ..old(self)@.talk },
            ),
    {
        self.session.answer(reply);
    }

    fn count(&mut self, import: Import)
        requires
            old(self)@.valid(),
            old(self)@.next < usize::MAX,
        ensures
            final(self)@ == old(self)@.counted(import@),
            final(self)@.valid(),
    {
        self.session = Session::new();
        self.next = self.next + 1;
        match import {
            Import::Skipped => {},
            Import::Done => {
                self.imported = self.imported + 1;
            },
            Import::Failed(message) => {
                self.errors.push(message);
                assert(views(self.errors@) =~= old(self)@.errors.push(message@));
            },
        }
        assert(self@.talk =~= old(self)@.counted(import@).talk);
    }
}

fn step_import(progress: &mut Progress, state: &DailyState, entry: &Json, dry_run: bool) -> (r:
    Result<(), Stop>)
    requires
        old(progress)@.valid(),
        old(progress)@.next < usize::MAX,
    ensures
        (final(progress)@, outcome(r)) == import_step(old(progress)@, state@, entry@, dry_run),
        final(progress)@.valid(),
{
    progress.session.restart();
    match import_entry(&mut progress.session, state, entry, dry_run) {
        Ok(import) => {
            progress.count(import);
            Ok(())
        },
        Err(stop) => Err(stop),
    }
}

fn run_import(progress: &mut Progress, state: &DailyState, params: &Json) -> (r: Result<Json, Stop>)
    requires
        old(progress)@.valid(),
    ensures
        (final(progress)@, json_outcome(r)) == import_run(
            old(progress)@,
            state@,
            params@.list_field("entries"@),
            params@.bool_field("dry_run"@) == Some(true),
        ),
        final(progress)@.valid(),
{
    let dry_run = match params.get_bool("dry_run") {
        Some(b) => b,
        None => false,
    };
    let ghost entries = params@.list_field("entries"@);
    if let Some(items) = params.get_list("entries") {
        while progress.next < items.len()
            invariant
                progress@.valid(),
                crate::json::json_views(items@) == entries,
                entries == params@.list_field("entries"@),
                dry_run == (params@.bool_field("dry_run"@) == Some(true)),
                import_run(progress@, state@, entries, dry_run) == import_run(
                    old(progress)@,
                    state@,
                    entries,
                    dry_run,
                ),
            decreases items@.len() - progress.next,
        {
            let at: usize = progress.next;
            assert(entries[at as int] == items@[at as int]@);
            match step_import(progress, state, &items[at], dry_run) {
                Ok(_) => {},
                Err(stop) => return Err(stop),
            }
        }
    }
    Ok(tell_import(progress.imported, &progress.errors, dry_run))
}

fn run_plain(
    session: &mut Session,
    state: &DailyState,
    command: &str,
    params: &Json,
    panel: &str,
) -> (r: Result<Json, Stop>)
    ensures
        (final(session)@, json_outcome(r)) == plain_command(
            old(session)@,
            state@,
            command@,
            params@,
            panel@,
        ),
{
    if same_text(command, "EnsureDailyEntry") {
        run_ensure(session, state, params)
    } else if same_text(command, "GetAdjacentDailyEntry") {
        run_adjacent(session, state, params)
    } else if same_text(command, "GetEntryState") {
        run_state(session, state, params)
    } else if same_text(command, "OpenToday") {
        run_open(session, state, false)
    } else if same_text(command, "OpenYesterday") {
        run_open(session, state, true)
    } else if same_text(command, "CliDaily") {
        run_cli(session, state, params)
    } else if same_text(command, "ListDailyEntryDates") {
        run_list(session, state, params)
    } else if same_text(command, "get_component_html") {
        match get_component_html_by_id(requested_component(params).as_str(), panel) {
            Ok(html) => Ok(text(html)),
            Err(message) => Err(Stop::Fail(message)),
        }
    } else {
        Err(Stop::Fail(concat("Unknown command: ", command)))
    }
}

/// Runs a command from where it stands: to its result and the state after it, or
/// to the next request that has no reply yet. `panel` is the text of the panel.
pub fn dispatch_command(
    progress: &mut Progress,
    command: &str,
    params: &Json,
    state: &DailyState,
    panel: &str,
) -> (r: Result<(Json, DailyState), Stop>)
    requires
        old(progress)@.valid(),
    ensures
        (final(progress)@, reply_outcome(r)) == command_run(
            old(progress)@,
            state@,
            command@,
            params@,
            panel@,
        ),
        final(progress)@.valid(),
{
    if same_text(command, "ImportEntriesToDaily") {
        return match run_import(progress, state, params) {
            Ok(value) => Ok((value, state.clone())),
            Err(stop) => Err(stop),
        };
    }
    progress.session.restart();
    if same_text(command, "UpdateConfig") {
        return handle_update_config(&mut progress.session, params, state);
    }
    match run_plain(&mut progress.session, state, command, params, panel) {
        Ok(value) => Ok((value, state.clone())),
        Err(stop) => Err(stop),
    }
}

} // verus!
