//! How the host meets the plugin: pages, events, typed requests and the commands that
//! need no file.

use vstd::prelude::*;

use crate::commands::{command_run, component, component_id, ProgressView};
use crate::entries::StateView;
use crate::json::{first_field, law_field_found, law_field_pushed, no_fields, JsonView};
use crate::plugin::{
    daily_cli, date_argument, named_component, opened_root, palette_item, panel_tab, print_flag,
    typed_params, typed_reply, ui_parts, untyped,
};
use crate::session::Outcome;
use crate::settings::config_updated;
use crate::text::{is_space, spaces, trimmed, without_front};
use crate::wording::law_trimmed;

verus! {

proof fn lemma_without_front(a: Seq<char>, s: Seq<char>)
    requires
        forall|i: int| 0 <= i < a.len() ==> is_space(#[trigger] a[i]),
        s.len() > 0,
        !is_space(s[0]),
    ensures
        without_front(a + s, spaces()) == s,
    decreases a.len(),
{
    if a.len() == 0 {
        assert(a + s =~= s);
    } else {
        assert((a + s)[0] == a[0]);
        assert((a + s).drop_first() =~= a.drop_first() + s);
        assert forall|i: int| 0 <= i < a.drop_first().len() implies is_space(
            #[trigger] a.drop_first()[i],
        ) by {
            assert(is_space(a[i + 1]));
        }
        lemma_without_front(a.drop_first(), s);
    }
}

/// A component is asked for by its name, with or without white space around it; a blank
/// text asks for the panel, and an object names none by its text.
pub proof fn law_component_named(a: Seq<char>, name: Seq<char>, b: Seq<char>)
    requires
        forall|i: int| 0 <= i < a.len() ==> is_space(#[trigger] a[i]),
        forall|i: int| 0 <= i < b.len() ==> is_space(#[trigger] b[i]),
        name.len() > 0 ==> !is_space(name[0]) && !is_space(name.last()),
    ensures
        named_component(a + name + b) == if name.len() == 0 {
            Some("daily.panel"@)
        } else if name[0] == '{' {
            None
        } else {
            Some(name)
        },
{
    reveal_strlit("{");
    law_trimmed(a, name, b);
    if name.len() > 0 {
        assert(a + name + b =~= a + (name + b));
        assert((name + b)[0] == name[0]);
        lemma_without_front(a, name + b);
        assert("{"@.is_prefix_of(name + b) <==> name[0] == '{') by {
            if name[0] == '{' {
                assert((name + b).subrange(0, 1) =~= "{"@);
            } else if "{"@.is_prefix_of(name + b) {
                assert((name + b)[0] == "{"@[0]);
            }
        }
    }
}

/// There is one component, the panel. It is meant where an object names none.
pub proof fn law_component_page(id: Seq<char>, panel: Seq<char>, params: JsonView)
    ensures
        component("daily.panel"@, panel) == Ok::<Seq<char>, Seq<char>>(panel),
        id != "daily.panel"@ ==> component(id, panel) == Err::<Seq<char>, Seq<char>>(
            "Unknown component id: "@ + id,
        ),
        params.text_field("component_id"@) == Some(id) ==> component_id(params) == id,
        params.text_field("component_id"@) is None ==> component_id(params) == "daily.panel"@,
{
}

/// `get_component_html` answers with the page of the component that its parameters name,
/// and asks nothing.
pub proof fn law_component_command(
    p: ProgressView,
    st: StateView,
    params: JsonView,
    panel: Seq<char>,
    id: Seq<char>,
)
    requires
        params.text_field("component_id"@) == Some(id) || (params.text_field("component_id"@) is None
            && id == "daily.panel"@),
    ensures
        ({
            let (q, o) = command_run(p, st, "get_component_html"@, params, panel);
            &&& q == p.in_talk(p.talk.fresh())
            &&& o == if id == "daily.panel"@ {
                Outcome::Got((JsonView::Text(panel), st))
            } else {
                Outcome::<(JsonView, StateView)>::Failed("Unknown component id: "@ + id)
            }
        }),
{
    lemma_names_apart();
}

/// `UpdateConfig` is a change of the settings.
pub proof fn law_update_command(p: ProgressView, st: StateView, params: JsonView, panel: Seq<char>)
    ensures
        command_run(p, st, "UpdateConfig"@, params, panel) == (
            p.in_talk(config_updated(p.talk.fresh(), st, params).0),
            config_updated(p.talk.fresh(), st, params).1,
        ),
{
    lemma_names_apart();
}

proof fn lemma_names_apart()
    ensures
        "UpdateConfig"@.len() == 12,
        "ImportEntriesToDaily"@.len() == 20,
        "get_component_html"@.len() == 18,
        "EnsureDailyEntry"@.len() == 16,
        "GetAdjacentDailyEntry"@.len() == 21,
        "GetEntryState"@.len() == 13,
        "ListDailyEntryDates"@.len() == 19,
        "OpenToday"@.len() == 9,
        "OpenYesterday"@.len() == 13,
        "CliDaily"@.len() == 8,
{
    reveal_strlit("UpdateConfig");
    reveal_strlit("ImportEntriesToDaily");
    reveal_strlit("get_component_html");
    reveal_strlit("EnsureDailyEntry");
    reveal_strlit("GetAdjacentDailyEntry");
    reveal_strlit("GetEntryState");
    reveal_strlit("ListDailyEntryDates");
    reveal_strlit("OpenToday");
    reveal_strlit("OpenYesterday");
    reveal_strlit("CliDaily");
}

/// An event opens a workspace when one was opened or changed: the one that its payload
/// names, if any. No other event does.
pub proof fn law_event_opens(event: JsonView)
    ensures
        ({
            let kind = event.text_field("event_type"@);
            &&& kind == Some("workspace_opened"@) || kind == Some("workspace_changed"@)
                ==> opened_root(event) == match event.field("payload"@) {
                Some(payload) => Some(payload.text_field("workspace_root"@)),
                None => Some(None),
            }
            &&& kind != Some("workspace_opened"@) && kind != Some("workspace_changed"@)
                ==> opened_root(event) is None
        }),
{
}

/// A typed request that names no parameters has none; its reply is marked as a result of
/// a plugin and holds the data.
pub proof fn law_typed(request: JsonView, data: JsonView)
    ensures
        request.field("params"@) is Some ==> typed_params(request) == request.field("params"@)->0,
        request.field("params"@) is None ==> typed_params(request) is Null,
        untyped() == "Missing `type` in typed command"@,
        typed_reply(data).text_field("type"@) == Some("PluginResult"@),
        typed_reply(data).field("data"@) == Some(data),
{
    reveal_strlit("type");
    reveal_strlit("data");
    assert("type"@[0] == 't' && "data"@[0] == 'd');
    let a = ("type"@, JsonView::Text("PluginResult"@));
    let b = ("data"@, data);
    law_field_pushed(no_fields(), a, "type"@);
    law_field_pushed(no_fields().push(a), b, "type"@);
    law_field_pushed(no_fields(), a, "data"@);
    law_field_pushed(no_fields().push(a), b, "data"@);
}

proof fn lemma_part_names()
    ensures
        "slot"@.len() == 4 && "id"@.len() == 2 && "label"@.len() == 5 && "group"@.len() == 5,
        "plugin_command"@.len() == 14,
        "label"@[0] == 'l' && "group"@[0] == 'g',
{
    reveal_strlit("slot");
    reveal_strlit("id");
    reveal_strlit("label");
    reveal_strlit("group");
    reveal_strlit("plugin_command");
}

/// An item of the command palette says where it stands and what it is called, and runs
/// its command.
pub proof fn law_palette_item(id: Seq<char>, label: Seq<char>, command: Seq<char>)
    ensures
        ({
            let item = palette_item(id, label, command);
            &&& item.text_field("slot"@) == Some("CommandPaletteItem"@)
            &&& item.text_field("id"@) == Some(id)
            &&& item.text_field("label"@) == Some(label)
            &&& item.text_field("group"@) == Some("Daily"@)
            &&& item.text_field("plugin_command"@) == Some(command)
        }),
{
    lemma_part_names();
    let a = ("slot"@, JsonView::Text("CommandPaletteItem"@));
    let b = ("id"@, JsonView::Text(id));
    let c = ("label"@, JsonView::Text(label));
    let d = ("group"@, JsonView::Text("Daily"@));
    let e = ("plugin_command"@, JsonView::Text(command));
    let keys = seq!["slot"@, "id"@, "label"@, "group"@, "plugin_command"@];
    assert forall|k: int| 0 <= k < 5 implies #[trigger] first_field(
        no_fields().push(a).push(b).push(c).push(d).push(e),
        keys[k],
    ) == Some(seq![a.1, b.1, c.1, d.1, e.1][k]) by {
        law_field_pushed(no_fields(), a, keys[k]);
        law_field_pushed(no_fields().push(a), b, keys[k]);
        law_field_pushed(no_fields().push(a).push(b), c, keys[k]);
        law_field_pushed(no_fields().push(a).push(b).push(c), d, keys[k]);
        law_field_pushed(no_fields().push(a).push(b).push(c).push(d), e, keys[k]);
    }
    assert(keys[0] == "slot"@ && keys[1] == "id"@ && keys[2] == "label"@ && keys[3] == "group"@
        && keys[4] == "plugin_command"@);
}

/// The user interface has the tab with the panel, and an item each for the entry of today
/// and that of yesterday.
pub proof fn law_ui_parts()
    ensures
        ui_parts().len() == 3,
        ui_parts()[0] == panel_tab(),
        ui_parts()[1] == palette_item("daily-open-today"@, "Open Today's Entry"@, "OpenToday"@),
        ui_parts()[2] == palette_item(
            "daily-open-yesterday"@,
            "Open Yesterday's Entry"@,
            "OpenYesterday"@,
        ),
{
}

/// The tab with the panel stands on the left of the sidebar and shows the panel.
pub proof fn law_panel_tab()
    ensures
        panel_tab().text_field("slot"@) == Some("SidebarTab"@),
        panel_tab().text_field("id"@) == Some("daily-panel"@),
        panel_tab().text_field("label"@) == Some("Daily"@),
        panel_tab().text_field("icon"@) == Some("calendar-days"@),
        panel_tab().text_field("side"@) == Some("Left"@),
        panel_tab().field("component"@) matches Some(frame) && frame.text_field("type"@) == Some(
            "Iframe"@,
        ) && frame.text_field("component_id"@) == Some("daily.panel"@),
{
    reveal_strlit("slot");
    reveal_strlit("id");
    reveal_strlit("label");
    reveal_strlit("icon");
    reveal_strlit("side");
    reveal_strlit("component");
    reveal_strlit("type");
    reveal_strlit("component_id");
    assert("slot"@.len() == 4 && "id"@.len() == 2 && "label"@.len() == 5 && "icon"@.len() == 4
        && "side"@.len() == 4 && "component"@.len() == 9);
    assert("slot"@[1] == 'l' && "icon"@[1] == 'c' && "side"@[1] == 'i');
    assert("type"@.len() == 4 && "component_id"@.len() == 12);
    let fields = panel_tab()->Object_0;
    law_field_found(fields, 0);
    law_field_found(fields, 1);
    law_field_found(fields, 2);
    law_field_found(fields, 3);
    law_field_found(fields, 4);
    law_field_found(fields, 5);
    let frame = fields[5].1->Object_0;
    law_field_found(frame, 0);
    law_field_found(frame, 1);
}

/// The command line has `daily`, or `d`: it runs `CliDaily` in a workspace, with a date and
/// a flag to print.
pub proof fn law_daily_cli()
    ensures
        daily_cli().text_field("name"@) == Some("daily"@),
        daily_cli().text_field("about"@) == Some("Daily entry commands"@),
        daily_cli().list_field("aliases"@) == seq![JsonView::Text("d"@)],
        daily_cli().text_field("command_name"@) == Some("CliDaily"@),
        daily_cli().bool_field("requires_workspace"@) == Some(true),
        daily_cli().list_field("args"@) == seq![date_argument(), print_flag()],
{
    reveal_strlit("name");
    reveal_strlit("about");
    reveal_strlit("aliases");
    reveal_strlit("command_name");
    reveal_strlit("requires_workspace");
    reveal_strlit("args");
    assert("name"@.len() == 4 && "about"@.len() == 5 && "aliases"@.len() == 7
        && "command_name"@.len() == 12 && "requires_workspace"@.len() == 18 && "args"@.len() == 4);
    assert("name"@[0] == 'n' && "args"@[0] == 'a');
    let fields = daily_cli()->Object_0;
    law_field_found(fields, 0);
    law_field_found(fields, 1);
    law_field_found(fields, 2);
    law_field_found(fields, 3);
    law_field_found(fields, 4);
    law_field_found(fields, 5);
}

/// The date of the command line is a text and may be left out; the flag to print has a
/// short and a long form.
pub proof fn law_cli_arguments()
    ensures
        date_argument().text_field("name"@) == Some("date"@),
        date_argument().text_field("help"@) == Some(
            "Date expression (today, yesterday, YYYY-MM-DD)"@,
        ),
        date_argument().bool_field("required"@) == Some(false),
        date_argument().text_field("value_type"@) == Some("String"@),
        print_flag().text_field("name"@) == Some("print"@),
        print_flag().text_field("help"@) == Some("Print entry content instead of launching editor"@),
        print_flag().text_field("short"@) == Some("p"@),
        print_flag().text_field("long"@) == Some("print"@),
        print_flag().bool_field("is_flag"@) == Some(true),
{
    reveal_strlit("name");
    reveal_strlit("help");
    reveal_strlit("required");
    reveal_strlit("value_type");
    reveal_strlit("short");
    reveal_strlit("long");
    reveal_strlit("is_flag");
    assert("name"@.len() == 4 && "help"@.len() == 4 && "required"@.len() == 8 && "value_type"@.len()
        == 10 && "short"@.len() == 5 && "long"@.len() == 4 && "is_flag"@.len() == 7);
    assert("name"@[0] == 'n' && "help"@[0] == 'h' && "long"@[0] == 'l');
    let date = date_argument()->Object_0;
    law_field_found(date, 0);
    law_field_found(date, 1);
    law_field_found(date, 2);
    law_field_found(date, 3);
    let print = print_flag()->Object_0;
    law_field_found(print, 0);
    law_field_found(print, 1);
    law_field_found(print, 2);
    law_field_found(print, 3);
    law_field_found(print, 4);
}

} // verus!
