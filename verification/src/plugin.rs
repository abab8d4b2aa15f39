//! What the plugin tells the host about itself, and how it reads what the host
//! sends.

use vstd::prelude::*;

use crate::commands::{
    command_run, component, component_id, get_component_html_by_id, reply_text, requested_component,
    ProgressView,
};
use crate::daily_logic::{opt_string_view, DailyPluginConfig};
use crate::entries::StateView;
use crate::json::{
    held_by, held_json, json_reading, list, no_fields, nothing, read_json, truth, words, Fields, Json,
    JsonView,
};
use crate::permissions::{
    build_requested_permissions, pair_views, permission_reasons, permission_rules,
    RequestedPermissions,
};
use crate::session::Outcome;
use crate::settings::update_view;
use crate::text::{
    concat, same_text, spaces, starts_with, trim, trim_start, trimmed, views, without_front,
};

verus! {

// ---------------------------------------------------------------------------
// The manifest
// ---------------------------------------------------------------------------

/// The names of all commands.
pub open spec fn command_names() -> Seq<Seq<char>> {
    seq![
        "EnsureDailyEntry"@,
        "GetAdjacentDailyEntry"@,
        "GetEntryState"@,
        "ImportEntriesToDaily"@,
        "ListDailyEntryDates"@,
        "OpenToday"@,
        "OpenYesterday"@,
        "UpdateConfig"@,
        "CliDaily"@,
        "get_component_html"@,
    ]
}

pub fn all_commands() -> (r: Vec<String>)
    ensures
        views(r@) == command_names(),
{
    let mut out: Vec<String> = Vec::new();
    out.push("EnsureDailyEntry".to_owned());
    out.push("GetAdjacentDailyEntry".to_owned());
    out.push("GetEntryState".to_owned());
    out.push("ImportEntriesToDaily".to_owned());
    out.push("ListDailyEntryDates".to_owned());
    out.push("OpenToday".to_owned());
    out.push("OpenYesterday".to_owned());
    out.push("UpdateConfig".to_owned());
    out.push("CliDaily".to_owned());
    out.push("get_component_html".to_owned());
    assert(views(out@) =~= command_names());
    out
}

/// A command that the plugin does not name fails, and asks the host nothing.
pub proof fn law_unknown_command(
    p: ProgressView,
    st: StateView,
    command: Seq<char>,
    params: JsonView,
    panel: Seq<char>,
)
    requires
        !command_names().contains(command),
    ensures
        command_run(p, st, command, params, panel) == (
            p.in_talk(p.talk.fresh()),
            Outcome::<(JsonView, StateView)>::Failed("Unknown command: "@ + command),
        ),
{
    let names = command_names();
    assert(names[0] == "EnsureDailyEntry"@);
    assert(names[1] == "GetAdjacentDailyEntry"@);
    assert(names[2] == "GetEntryState"@);
    assert(names[3] == "ImportEntriesToDaily"@);
    assert(names[4] == "ListDailyEntryDates"@);
    assert(names[5] == "OpenToday"@);
    assert(names[6] == "OpenYesterday"@);
    assert(names[7] == "UpdateConfig"@);
    assert(names[8] == "CliDaily"@);
    assert(names[9] == "get_component_html"@);
}

/// The tab with the panel.
pub open spec fn panel_tab() -> JsonView {
    let frame = JsonView::Object(
        no_fields().push(("type"@, JsonView::Text("Iframe"@))).push(
            ("component_id"@, JsonView::Text("daily.panel"@)),
        ),
    );
    JsonView::Object(
        no_fields().push(("slot"@, JsonView::Text("SidebarTab"@))).push(
            ("id"@, JsonView::Text("daily-panel"@)),
        ).push(("label"@, JsonView::Text("Daily"@))).push(
            ("icon"@, JsonView::Text("calendar-days"@)),
        ).push(("side"@, JsonView::Text("Left"@))).push(("component"@, frame)),
    )
}

/// An item of the command palette.
pub open spec fn palette_item(id: Seq<char>, label: Seq<char>, command: Seq<char>) -> JsonView {
    JsonView::Object(
        no_fields().push(("slot"@, JsonView::Text("CommandPaletteItem"@))).push(
            ("id"@, JsonView::Text(id)),
        ).push(("label"@, JsonView::Text(label))).push(("group"@, JsonView::Text("Daily"@))).push(
            ("plugin_command"@, JsonView::Text(command)),
        ),
    )
}

/// The parts of the user interface.
pub open spec fn ui_parts() -> Seq<JsonView> {
    seq![
        panel_tab(),
        palette_item("daily-open-today"@, "Open Today's Entry"@, "OpenToday"@),
        palette_item("daily-open-yesterday"@, "Open Yesterday's Entry"@, "OpenYesterday"@),
    ]
}

/// The argument with the date.
pub open spec fn date_argument() -> JsonView {
    JsonView::Object(
        no_fields().push(("name"@, JsonView::Text("date"@))).push(
            ("help"@, JsonView::Text("Date expression (today, yesterday, YYYY-MM-DD)"@)),
        ).push(("required"@, JsonView::Bool(false))).push(
            ("value_type"@, JsonView::Text("String"@)),
        ),
    )
}

/// The flag that asks to print.
pub open spec fn print_flag() -> JsonView {
    JsonView::Object(
        no_fields().push(("name"@, JsonView::Text("print"@))).push(
            ("help"@, JsonView::Text("Print entry content instead of launching editor"@)),
        ).push(("short"@, JsonView::Text("p"@))).push(("long"@, JsonView::Text("print"@))).push(
            ("is_flag"@, JsonView::Bool(true)),
        ),
    )
}

/// The command of the command line.
pub open spec fn daily_cli() -> JsonView {
    JsonView::Object(
        no_fields().push(("name"@, JsonView::Text("daily"@))).push(
            ("about"@, JsonView::Text("Daily entry commands"@)),
        ).push(("aliases"@, JsonView::List(seq![JsonView::Text("d"@)]))).push(
            ("command_name"@, JsonView::Text("CliDaily"@)),
        ).push(("requires_workspace"@, JsonView::Bool(true))).push(
            ("args"@, JsonView::List(seq![date_argument(), print_flag()])),
        ),
    )
}

/// What the plugin tells the host about itself.
#[derive(Debug)]
pub struct Manifest {
    pub id: String,
    pub name: String,
    pub version: String,
    pub description: String,
    pub capabilities: Vec<String>,
    pub ui: Vec<Json>,
    pub commands: Vec<String>,
    pub cli: Vec<Json>,
    pub requested_permissions: RequestedPermissions,
}

fn tell_panel_tab() -> (r: Json)
    ensures
        r@ == panel_tab(),
{
    let frame = Fields::new().with("type", words("Iframe")).with(
        "component_id",
        words("daily.panel"),
    ).into_json();
    Fields::new().with("slot", words("SidebarTab")).with("id", words("daily-panel")).with(
        "label",
        words("Daily"),
    ).with("icon", words("calendar-days")).with("side", words("Left")).with(
        "component",
        frame,
    ).into_json()
}

fn tell_palette_item(id: &str, label: &str, command: &str) -> (r: Json)
    ensures
        r@ == palette_item(id@, label@, command@),
{
    Fields::new().with("slot", words("CommandPaletteItem")).with("id", words(id)).with(
        "label",
        words(label),
    ).with("group", words("Daily")).with("plugin_command", words(command)).into_json()
}

fn tell_cli() -> (r: Json)
    ensures
        r@ == daily_cli(),
{
    let date = Fields::new().with("name", words("date")).with(
        "help",
        words("Date expression (today, yesterday, YYYY-MM-DD)"),
    ).with("required", truth(false)).with("value_type", words("String")).into_json();
    let print = Fields::new().with("name", words("print")).with(
        "help",
        words("Print entry content instead of launching editor"),
    ).with("short", words("p")).with("long", words("print")).with(
        "is_flag",
        truth(true),
    ).into_json();
    let mut aliases: Vec<Json> = Vec::new();
    aliases.push(words("d"));
    assert(crate::json::json_views(aliases@) =~= seq![JsonView::Text("d"@)]);
    let mut args: Vec<Json> = Vec::new();
    args.push(date);
    args.push(print);
    assert(crate::json::json_views(args@) =~= seq![date_argument(), print_flag()]);
    Fields::new().with("name", words("daily")).with(
        "about",
        words("Daily entry commands"),
    ).with("aliases", list(aliases)).with("command_name", words("CliDaily")).with(
        "requires_workspace",
        truth(true),
    ).with("args", list(args)).into_json()
}

/// The manifest of a version of the plugin.
pub fn manifest(version: &str) -> (r: Manifest)
    ensures
        r.id@ == "diaryx.daily"@,
        r.name@ == "Daily"@,
        r.version@ == version@,
        r.description@ == "Daily entry plugin with date hierarchy, navigation, and CLI surface"@,
        views(r.capabilities@) == seq!["workspace_events"@, "custom_commands"@],
        crate::json::json_views(r.ui@) == ui_parts(),
        views(r.commands@) == command_names(),
        crate::json::json_views(r.cli@) == seq![daily_cli()],
        r.requested_permissions.defaults@ == permission_rules("Daily"@, Some("README.md"@)),
        pair_views(r.requested_permissions.reasons@) == permission_reasons(),
{
    let mut capabilities: Vec<String> = Vec::new();
    capabilities.push("workspace_events".to_owned());
    capabilities.push("custom_commands".to_owned());
    assert(views(capabilities@) =~= seq!["workspace_events"@, "custom_commands"@]);
    let mut ui: Vec<Json> = Vec::new();
    ui.push(tell_panel_tab());
    ui.push(tell_palette_item("daily-open-today", "Open Today's Entry", "OpenToday"));
    ui.push(tell_palette_item("daily-open-yesterday", "Open Yesterday's Entry", "OpenYesterday"));
    assert(crate::json::json_views(ui@) =~= ui_parts());
    let mut cli: Vec<Json> = Vec::new();
    cli.push(tell_cli());
    assert(crate::json::json_views(cli@) =~= seq![daily_cli()]);
    let folder = DailyPluginConfig::default().effective_entry_folder();
    Manifest {
        id: "diaryx.daily".to_owned(),
        name: "Daily".to_owned(),
        version: version.to_owned(),
        description: "Daily entry plugin with date hierarchy, navigation, and CLI surface".to_owned(),
        capabilities,
        ui,
        commands: all_commands(),
        cli,
        requested_permissions: build_requested_permissions(folder.as_str(), Some("README.md")),
    }
}

// ---------------------------------------------------------------------------
// What the host sends
// ---------------------------------------------------------------------------

/// The request of a command as `serde_json` reads it in a text: the name and the
/// parameters, or its message.
pub uninterp spec fn request_reading(text: Seq<char>) -> Result<(Seq<char>, JsonView), Seq<char>>;

/// The request that was read, or a message.
pub open spec fn request_view(r: Result<(String, serde_json::Value), String>) -> Result<
    (Seq<char>, JsonView),
    Seq<char>,
> {
    match r {
        Ok(request) => Ok((request.0@, held_by(request.1))),
        Err(message) => Err(message@),
    }
}

/// `serde_json::from_str` into the `CommandRequest` of `diaryx_plugin_sdk`: its
/// name and its parameters, or the message of the error.
#[verifier::external_body]
fn parse_request(text: &str) -> (r: Result<(String, serde_json::Value), String>)
    ensures
        request_view(r) == request_reading(text@),
{
    match serde_json::from_str::<diaryx_plugin_sdk::protocol::CommandRequest>(text) {
        Ok(request) => Ok((request.command, request.params)),
        Err(e) => Err(e.to_string()),
    }
}

/// The name and the parameters of a command that the host sends.
pub fn command_request(input: &str) -> (r: Result<(String, Json), String>)
    ensures
        match request_reading(input@) {
            Ok(request) => r matches Ok(q) && q.0@ == request.0 && q.1@ == request.1,
            Err(message) => r matches Err(e) && e@ == message,
        },
{
    match parse_request(input) {
        Ok((command, params)) => Ok((command, held_json(params))),
        Err(message) => Err(message),
    }
}

/// What a typed request is answered where it names no command.
pub open spec fn untyped() -> Seq<char> {
    "Missing `type` in typed command"@
}

/// The parameters of a typed request.
pub open spec fn typed_params(request: JsonView) -> JsonView {
    match request.field("params"@) {
        Some(params) => params,
        None => JsonView::Null,
    }
}

/// The command of a typed request, by its field `type`.
pub fn typed_command(request: &Json) -> (r: Result<&str, String>)
    ensures
        match request@.text_field("type"@) {
            Some(name) => r matches Ok(s) && s@ == name,
            None => r matches Err(e) && e@ == untyped(),
        },
{
    match request.get_str("type") {
        Some(name) => Ok(name),
        None => Err("Missing `type` in typed command".to_owned()),
    }
}

/// The command and the parameters of a typed request that the host sends.
pub fn typed_request(input: &str) -> (r: Result<(String, Json), String>)
    ensures
        match json_reading(input@) {
            Err(message) => r matches Err(e) && e@ == "Invalid JSON: "@ + message,
            Ok(request) => match request.text_field("type"@) {
                None => r matches Err(e) && e@ == untyped(),
                Some(name) => r matches Ok(q) && q.0@ == name && q.1@ == typed_params(request),
            },
        },
{
    let request = match read_json(input) {
        Ok(request) => request,
        Err(message) => return Err(concat("Invalid JSON: ", message.as_str())),
    };
    let command: String = match typed_command(&request) {
        Ok(name) => name.to_owned(),
        Err(message) => return Err(message),
    };
    let params = match request.take("params") {
        Some(params) => params,
        None => nothing(),
    };
    Ok((command, params))
}

/// The result of a typed request.
pub open spec fn typed_reply(data: JsonView) -> JsonView {
    JsonView::Object(
        no_fields().push(("type"@, JsonView::Text("PluginResult"@))).push(("data"@, data)),
    )
}

pub fn typed_result(data: Json) -> (r: Json)
    ensures
        r@ == typed_reply(data@),
{
    Fields::new().with("type", words("PluginResult")).with("data", data).into_json()
}

/// The answer to a typed request: its result, or nothing where the command
/// failed.
pub fn typed_answer(outcome: Result<Json, String>) -> (r: Option<Json>)
    ensures
        match outcome {
            Ok(data) => r matches Some(answer) && answer@ == typed_reply(data@),
            Err(_) => r is None,
        },
{
    match outcome {
        Ok(data) => Some(typed_result(data)),
        Err(_) => None,
    }
}

/// The component that a text asks for by its name: the panel where it is blank.
/// An object asks for it otherwise.
pub open spec fn named_component(input: Seq<char>) -> Option<Seq<char>> {
    if trimmed(input).len() == 0 {
        Some("daily.panel"@)
    } else if "{"@.is_prefix_of(without_front(input, spaces())) {
        None
    } else {
        Some(trimmed(input))
    }
}

pub fn component_name(input: &str) -> (r: Option<String>)
    ensures
        opt_string_view(r) == named_component(input@),
{
    let name = trim(input);
    if name.as_str().is_empty() {
        return Some("daily.panel".to_owned());
    }
    if starts_with(trim_start(input).as_str(), "{") {
        return None;
    }
    Some(name)
}

/// The page of the component that the host asks for, by its name or by an object.
pub fn component_page(input: &str, panel: &str) -> (r: Result<String, String>)
    ensures
        reply_text(r) == (match named_component(input@) {
            Some(id) => component(id, panel@),
            None => match json_reading(input@) {
                Ok(params) => component(component_id(params), panel@),
                Err(message) => Err(message),
            },
        }),
{
    match component_name(input) {
        Some(name) => get_component_html_by_id(name.as_str(), panel),
        None => match read_json(input) {
            Ok(params) => get_component_html_by_id(requested_component(&params).as_str(), panel),
            Err(message) => Err(message),
        },
    }
}

/// The workspace that an event opens, if it opens one.
pub open spec fn opened_root(event: JsonView) -> Option<Option<Seq<char>>> {
    if event.text_field("event_type"@) == Some("workspace_opened"@) || event.text_field(
        "event_type"@,
    ) == Some("workspace_changed"@) {
        match event.field("payload"@) {
            Some(payload) => Some(payload.text_field("workspace_root"@)),
            None => Some(None),
        }
    } else {
        None
    }
}

/// The workspace that an event which the host sends opens, if it opens one.
pub fn event_root(input: &str) -> (r: Option<Option<String>>)
    ensures
        update_view(r) == (match json_reading(input@) {
            Ok(event) => opened_root(event),
            Err(_) => None,
        }),
{
    match read_json(input) {
        Ok(event) => event_workspace_root(&event),
        Err(_) => None,
    }
}

pub fn event_workspace_root(event: &Json) -> (r: Option<Option<String>>)
    ensures
        update_view(r) == opened_root(event@),
{
    let opens = match event.get_str("event_type") {
        Some(name) => same_text(name, "workspace_opened") || same_text(name, "workspace_changed"),
        None => false,
    };
    if !opens {
        return None;
    }
    match event.get("payload") {
        Some(payload) => match payload.get_str("workspace_root") {
            Some(root) => Some(Some(root.to_owned())),
            None => Some(None),
        },
        None => Some(None),
    }
}

} // verus!
