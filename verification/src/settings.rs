//! The settings of the plugin: how they change, and how they are taken over from
//! the root index, where earlier versions kept them.

use indexmap::IndexMap;
use serde_yaml::Value;
use vstd::prelude::*;

use crate::daily_logic::{
    folder_text, law_folder_normalized, normalize_folder, opt_string_view, opt_view, ConfigView, DailyPluginConfig,
};
use crate::entries::{
    markdown_asked, markdown_written, read_parsed, write_markdown, DailyState, StateView,
};
use crate::frontmatter::{
    distinct_keys, frontmatter_fields, law_remove_field, lookup, take_text_field, without_field,
    Field,
};
use crate::json::{Json, JsonView};
use crate::permissions::{build_permissions_patch, permissions_patch};
use crate::session::{
    exists_asked, load_asked, save_asked, stopped, Answer, Ask, Outcome, Session, Stop, Talk,
};
use crate::text::{ends_with, same_text, slash_trimmed, trim_slashes, views};
use crate::workspace::{
    find_root_index_candidates, root_candidates, storage_key, storage_key_for_workspace,
};

verus! {

// ---------------------------------------------------------------------------
// Settings of earlier versions
// ---------------------------------------------------------------------------

/// A setting after one of an earlier version was found: it counts only where
/// nothing is set.
pub open spec fn setting_after(current: Option<Seq<char>>, found: Option<Field>) -> Option<
    Seq<char>,
> {
    match found {
        Some(Field::Text(s)) => if current is None || current->0.len() == 0 {
            Some(s)
        } else {
            current
        },
        _ => current,
    }
}

/// What was found in a file: the settings after it, the fields that are left, and
/// whether there was anything.
pub struct Taken {
    pub config: ConfigView,
    pub fields: Seq<(Seq<char>, Field)>,
    pub found: bool,
}

/// Takes the settings of an earlier version out of the fields of a file.
pub open spec fn legacy_taken(config: ConfigView, fields: Seq<(Seq<char>, Field)>) -> Taken {
    let folder = lookup(fields, "daily_entry_folder"@);
    let rest = without_field(fields, "daily_entry_folder"@);
    let template = lookup(rest, "daily_template"@);
    Taken {
        config: ConfigView {
            entry_folder: setting_after(config.entry_folder, folder),
            entry_template: setting_after(config.entry_template, template),
            migrated_legacy_config: config.migrated_legacy_config,
        },
        fields: without_field(rest, "daily_template"@),
        found: folder matches Some(Field::Text(_)) || template matches Some(Field::Text(_)),
    }
}

fn setting_given(current: &Option<String>) -> (r: bool)
    ensures
        r == (current is Some && opt_string_view(*current)->0.len() > 0),
{
    match current {
        Some(s) => !s.as_str().is_empty(),
        None => false,
    }
}

fn take_legacy(config: &mut DailyPluginConfig, fields: &mut IndexMap<String, Value>) -> (r: bool)
    ensures
        (Taken {
            config: final(config)@,
            fields: frontmatter_fields(*final(fields)),
            found: r,
        }) == legacy_taken(old(config)@, frontmatter_fields(*old(fields))),
{
    let mut found = false;
    if let Some(folder) = take_text_field(fields, "daily_entry_folder") {
        if !setting_given(&config.entry_folder) {
            config.entry_folder = Some(folder);
        }
        found = true;
    }
    if let Some(template) = take_text_field(fields, "daily_template") {
        if !setting_given(&config.entry_template) {
            config.entry_template = Some(template);
        }
        found = true;
    }
    found
}

/// Takes the settings of earlier versions out of the files that hold them: the
/// settings after it, and whether there were any.
pub open spec fn legacy_migrated(
    s: Talk,
    config: ConfigView,
    candidates: Seq<Seq<char>>,
    any: bool,
) -> (Talk, Outcome<(ConfigView, bool)>)
    decreases candidates.len(),
{
    if candidates.len() == 0 {
        (s, Outcome::Got((config, any)))
    } else {
        let path = candidates[0];
        let (s1, o1) = exists_asked(s, path);
        match o1 {
            Outcome::Got(true) => {
                let (s2, o2) = markdown_asked(s1, path);
                match o2 {
                    Outcome::Got(file) => {
                        let taken = legacy_taken(config, file.0);
                        if taken.found {
                            let (s3, o3) = markdown_written(s2, path, taken.fields, file.1);
                            match o3 {
                                Outcome::Got(_) => legacy_migrated(
                                    s3,
                                    taken.config,
                                    candidates.drop_first(),
                                    true,
                                ),
                                _ => (s3, stopped(o3)),
                            }
                        } else {
                            legacy_migrated(s2, taken.config, candidates.drop_first(), any)
                        }
                    },
                    _ => (s2, stopped(o2)),
                }
            },
            Outcome::Got(false) => legacy_migrated(s1, config, candidates.drop_first(), any),
            _ => (s1, stopped(o1)),
        }
    }
}

/// Takes over the settings of earlier versions, unless that was done before: the
/// state after it, and whether there were any.
pub open spec fn taken_over(s: Talk, st: StateView) -> (Talk, Outcome<(StateView, bool)>) {
    if st.config.migrated_legacy_config {
        (s, Outcome::Got((st, false)))
    } else {
        let (s1, o1) = legacy_migrated(s, st.config, root_candidates(st.root), false);
        match o1 {
            Outcome::Got((config, any)) => (
                s1,
                Outcome::Got(
                    (
                        StateView {
                            root: st.root,
                            config: ConfigView { migrated_legacy_config: true, ..config },
                        },
                        any,
                    ),
                ),
            ),
            _ => (s1, stopped(o1)),
        }
    }
}

/// Saves what was taken over, unless that was done before.
pub open spec fn take_over_saved(s: Talk, st: StateView, after: StateView) -> (Talk, Outcome<()>) {
    if st.config.migrated_legacy_config {
        (s, Outcome::Got(()))
    } else {
        save_asked(s, storage_key(st.root), after.config)
    }
}

/// Takes over the settings of earlier versions, once.
pub open spec fn migrated(s: Talk, st: StateView) -> (Talk, Outcome<(StateView, bool)>) {
    let (s1, o1) = taken_over(s, st);
    match o1 {
        Outcome::Got((after, any)) => {
            let (s2, o2) = take_over_saved(s1, st, after);
            match o2 {
                Outcome::Got(_) => (s2, Outcome::Got((after, any))),
                _ => (s2, stopped(o2)),
            }
        },
        _ => (s1, stopped(o1)),
    }
}

/// The outcome of a result that is a state and a truth value.
pub open spec fn state_outcome(r: Result<(DailyState, bool), Stop>) -> Outcome<(StateView, bool)> {
    match r {
        Ok(value) => Outcome::Got((value.0@, value.1)),
        Err(Stop::Fail(message)) => Outcome::Failed(message@),
        Err(Stop::Ask(action)) => Outcome::Waiting(action@),
    }
}

pub(crate) fn save_workspace_config(session: &mut Session, state: &DailyState) -> (r: Result<
    (),
    Stop,
>)
    ensures
        (final(session)@, crate::session::outcome(r)) == save_asked(
            old(session)@,
            storage_key(state@.root),
            state@.config,
        ),
{
    let key = storage_key_for_workspace(state.root());
    session.save_config(key.as_str(), &state.config)
}

/// Takes the settings that earlier versions kept in the root index out of it.
fn take_over(session: &mut Session, state: &DailyState) -> (r: Result<(DailyState, bool), Stop>)
    ensures
        (final(session)@, state_outcome(r)) == taken_over(old(session)@, state@),
        r matches Ok(value) ==> value.0@.root == state@.root,
{
    let mut after = state.clone();
    if after.config.migrated_legacy_config {
        return Ok((after, false));
    }
    let candidates = find_root_index_candidates(state.root());
    let ghost all = views(candidates@);
    let mut any = false;
    let mut i: usize = 0;
    assert(all.skip(0) =~= all);
    while i < candidates.len()
        invariant
            i <= candidates@.len(),
            all == views(candidates@),
            all == root_candidates(state@.root),
            after.workspace_root == state.workspace_root,
            !state@.config.migrated_legacy_config,
            legacy_migrated(session@, after.config@, all.skip(i as int), any)
                == legacy_migrated(old(session)@, state@.config, all, false),
        decreases candidates@.len() - i,
    {
        let path = candidates[i].as_str();
        assert(all.skip(i as int)[0] == path@);
        assert(all.skip(i as int).drop_first() =~= all.skip(i + 1));
        match session.file_exists(path) {
            Ok(true) => {
                let (mut fields, body) = match read_parsed(session, path) {
                    Ok(file) => file,
                    Err(stop) => return Err(stop),
                };
                let mut config = after.config.clone();
                let found = take_legacy(&mut config, &mut fields);
                if found {
                    match write_markdown(session, path, &fields, body.as_str()) {
                        Ok(_) => {},
                        Err(stop) => return Err(stop),
                    }
                    any = true;
                }
                after = DailyState { workspace_root: after.workspace_root, config };
            },
            Ok(false) => {},
            Err(stop) => return Err(stop),
        }
        i = i + 1;
    }
    after = DailyState {
        workspace_root: after.workspace_root,
        config: DailyPluginConfig {
            entry_folder: after.config.entry_folder,
            entry_template: after.config.entry_template,
            migrated_legacy_config: true,
        },
    };
    Ok((after, any))
}

fn save_take_over(session: &mut Session, state: &DailyState, after: &DailyState) -> (r: Result<
    (),
    Stop,
>)
    requires
        after@.root == state@.root,
    ensures
        (final(session)@, crate::session::outcome(r)) == take_over_saved(
            old(session)@,
            state@,
            after@,
        ),
{
    if state.config.migrated_legacy_config {
        Ok(())
    } else {
        save_workspace_config(session, after)
    }
}

/// Takes over the settings that earlier versions kept in the root index, unless
/// that was done before. Gives the state after it, and whether there were any.
pub fn migrate_legacy_config(session: &mut Session, state: &DailyState) -> (r: Result<
    (DailyState, bool),
    Stop,
>)
    ensures
        (final(session)@, state_outcome(r)) == migrated(old(session)@, state@),
{
    let (after, any) = match take_over(session, state) {
        Ok(value) => value,
        Err(stop) => return Err(stop),
    };
    match save_take_over(session, state, &after) {
        Ok(_) => Ok((after, any)),
        Err(stop) => Err(stop),
    }
}

/// Loads the settings of a workspace: the state that it starts with.
pub open spec fn workspace_loaded(s: Talk, root: Option<Seq<char>>) -> (Talk, Outcome<StateView>) {
    let (s1, o1) = load_asked(s, storage_key(root));
    match o1 {
        Outcome::Got(config) => (s1, Outcome::Got(StateView { root, config })),
        _ => (s1, stopped(o1)),
    }
}

/// What becomes of the settings when a workspace is opened: the state, whether
/// settings of earlier versions were taken over, and what failed.
pub struct OpenedView {
    pub state: StateView,
    pub taken: bool,
    pub failure: Option<Seq<char>>,
}

/// The end of an opening that did not fail before a save of the state after it.
pub open spec fn opening_saved(
    s: Talk,
    o: Outcome<()>,
    st: StateView,
    after: StateView,
    taken: bool,
) -> (Talk, Outcome<OpenedView>) {
    match o {
        Outcome::Got(_) => (s, Outcome::Got(OpenedView { state: after, taken, failure: None })),
        Outcome::Failed(e) => (
            s,
            Outcome::Got(OpenedView { state: st, taken, failure: Some(e) }),
        ),
        Outcome::Waiting(ask) => (s, Outcome::Waiting(ask)),
    }
}

/// Takes over the settings of earlier versions in a workspace that was loaded, and
/// saves all. Where something fails, the workspace stays as it was loaded; what was
/// taken over before that is still told.
pub open spec fn opening_finished(s: Talk, st: StateView) -> (Talk, Outcome<OpenedView>) {
    let (s1, o1) = taken_over(s, st);
    match o1 {
        Outcome::Got((after, any)) => {
            let (s2, o2) = take_over_saved(s1, st, after);
            match o2 {
                Outcome::Got(_) => {
                    let (s3, o3) = save_asked(s2, storage_key(st.root), after.config);
                    opening_saved(s3, o3, st, after, any)
                },
                _ => opening_saved(s2, o2, st, after, any),
            }
        },
        Outcome::Failed(e) => (
            s1,
            Outcome::Got(OpenedView { state: st, taken: false, failure: Some(e) }),
        ),
        Outcome::Waiting(ask) => (s1, Outcome::Waiting(ask)),
    }
}

/// Opens a workspace: loads its settings, and takes over those of earlier
/// versions. Where that fails, the workspace is open all the same.
pub open spec fn root_updated(s: Talk, root: Option<Seq<char>>) -> (Talk, Outcome<OpenedView>) {
    let (s1, o1) = workspace_loaded(s, root);
    match o1 {
        Outcome::Got(st) => opening_finished(s1, st),
        _ => (s1, stopped(o1)),
    }
}

/// A workspace that was opened.
#[derive(Debug)]
pub struct Opened {
    pub state: DailyState,
    /// Whether settings of earlier versions were taken over.
    pub taken: bool,
    /// Why the settings could not be taken over or saved.
    pub failure: Option<String>,
}

impl View for Opened {
    type V = OpenedView;

    open spec fn view(&self) -> OpenedView {
        OpenedView {
            state: self.state@,
            taken: self.taken,
            failure: opt_string_view(self.failure),
        }
    }
}

/// The outcome of a result that is a state.
pub open spec fn loaded_outcome(r: Result<DailyState, Stop>) -> Outcome<StateView> {
    match r {
        Ok(value) => Outcome::Got(value@),
        Err(Stop::Fail(message)) => Outcome::Failed(message@),
        Err(Stop::Ask(action)) => Outcome::Waiting(action@),
    }
}

/// The outcome of a result that is an opened workspace.
pub open spec fn opened_outcome(r: Result<Opened, Stop>) -> Outcome<OpenedView> {
    match r {
        Ok(value) => Outcome::Got(value@),
        Err(Stop::Fail(message)) => Outcome::Failed(message@),
        Err(Stop::Ask(action)) => Outcome::Waiting(action@),
    }
}

/// Loads the settings of a workspace. The state that it gives holds from then on,
/// whatever becomes of [`finish_opening`].
pub fn load_workspace(session: &mut Session, workspace_root: Option<String>) -> (r: Result<
    DailyState,
    Stop,
>)
    ensures
        (final(session)@, loaded_outcome(r)) == workspace_loaded(
            old(session)@,
            opt_string_view(workspace_root),
        ),
{
    let root: Option<&str> = match &workspace_root {
        Some(text) => Some(text.as_str()),
        None => None,
    };
    let key = storage_key_for_workspace(root);
    match session.load_config(key.as_str()) {
        Ok(config) => Ok(DailyState { workspace_root, config }),
        Err(stop) => Err(stop),
    }
}

/// Takes over the settings of earlier versions in a workspace that was loaded, and
/// saves all. It fails only in what it gives.
pub fn finish_opening(session: &mut Session, state: DailyState) -> (r: Result<Opened, Stop>)
    ensures
        (final(session)@, opened_outcome(r)) == opening_finished(old(session)@, state@),
        !(r matches Err(Stop::Fail(_))),
{
    let (after, taken) = match take_over(session, &state) {
        Ok(value) => value,
        Err(Stop::Fail(e)) => return Ok(Opened { state, taken: false, failure: Some(e) }),
        Err(Stop::Ask(action)) => return Err(Stop::Ask(action)),
    };
    match save_take_over(session, &state, &after) {
        Ok(_) => {},
        Err(Stop::Fail(e)) => return Ok(Opened { state, taken, failure: Some(e) }),
        Err(Stop::Ask(action)) => return Err(Stop::Ask(action)),
    }
    match save_workspace_config(session, &after) {
        Ok(_) => Ok(Opened { state: after, taken, failure: None }),
        Err(Stop::Fail(e)) => Ok(Opened { state, taken, failure: Some(e) }),
        Err(Stop::Ask(action)) => Err(Stop::Ask(action)),
    }
}

/// Opens a workspace, from its settings to the end of the take-over.
pub fn update_workspace_root(session: &mut Session, workspace_root: Option<String>) -> (r: Result<
    Opened,
    Stop,
>)
    ensures
        (final(session)@, opened_outcome(r)) == root_updated(
            old(session)@,
            opt_string_view(workspace_root),
        ),
{
    match load_workspace(session, workspace_root) {
        Ok(state) => finish_opening(session, state),
        Err(stop) => Err(stop),
    }
}

// ---------------------------------------------------------------------------
// Changes by the host
// ---------------------------------------------------------------------------

/// A folder that is set, if it has a name.
pub open spec fn named_folder(folder: Option<Seq<char>>) -> Option<Seq<char>> {
    if folder_text(folder).len() == 0 {
        None
    } else {
        Some(folder_text(folder))
    }
}

fn some_folder(folder: Option<&str>) -> (r: Option<String>)
    ensures
        opt_string_view(r) == named_folder(opt_view(folder)),
{
    let normalized = normalize_folder(folder);
    if normalized.as_str().is_empty() {
        None
    } else {
        Some(normalized)
    }
}

/// The folder that a change of the settings asks for, if it is about the folder:
/// a change of the workspace settings by the name and value of a field, any other
/// by the settings themselves.
pub open spec fn folder_update(params: JsonView) -> Option<Option<Seq<char>>> {
    if params.text_field("source"@) == Some("workspace_config"@) {
        if params.text_field("field"@) == Some("daily_entry_folder"@) {
            let raw = match params.text_field("value"@) {
                Some(value) => value,
                None => Seq::empty(),
            };
            Some(named_folder(Some(raw)))
        } else {
            None
        }
    } else {
        match params.field("config"@) {
            Some(config) => match config.field("entry_folder"@) {
                Some(JsonView::Null) => Some(None),
                Some(JsonView::Text(value)) => Some(named_folder(Some(value))),
                Some(_) => Some(named_folder(None)),
                None => None,
            },
            None => None,
        }
    }
}

/// What the texts that may be missing twice hold.
pub open spec fn update_view(r: Option<Option<String>>) -> Option<Option<Seq<char>>> {
    match r {
        Some(folder) => Some(opt_string_view(folder)),
        None => None,
    }
}

fn is_text(value: Option<&str>, expected: &str) -> (r: bool)
    ensures
        r == (opt_view(value) == Some(expected@)),
{
    match value {
        Some(text) => same_text(text, expected),
        None => false,
    }
}

pub fn extract_entry_folder_update(params: &Json) -> (r: Option<Option<String>>)
    ensures
        update_view(r) == folder_update(params@),
{
    if is_text(params.get_str("source"), "workspace_config") {
        if !is_text(params.get_str("field"), "daily_entry_folder") {
            return None;
        }
        return match params.get_str("value") {
            Some(value) => Some(some_folder(Some(value))),
            None => {
                let none = "";
                proof {
                    reveal_strlit("");
                    assert(none@ =~= Seq::empty());
                }
                Some(some_folder(Some(none)))
            },
        };
    }
    let config = match params.get("config") {
        Some(config) => config,
        None => return None,
    };
    match config.get("entry_folder") {
        Some(value) => if value.is_null() {
            Some(None)
        } else {
            Some(some_folder(value.as_str()))
        },
        None => None,
    }
}

/// The root index that the host names, or the workspace itself where it is one.
pub open spec fn named_root_index(st: StateView, params: JsonView) -> Option<Seq<char>> {
    match params.text_field("root_index_path"@) {
        Some(path) => Some(path),
        None => match st.root {
            Some(root) => if ".md"@.is_suffix_of(root) {
                Some(root)
            } else {
                None
            },
            None => None,
        },
    }
}

/// Changes the folder where the host asks for it: the permissions that the plugin
/// needs from then on, and the state.
pub open spec fn config_updated(s: Talk, st: StateView, params: JsonView) -> (
    Talk,
    Outcome<(JsonView, StateView)>,
) {
    match folder_update(params) {
        Some(folder) => {
            let after = StateView {
                root: st.root,
                config: ConfigView { entry_folder: folder, ..st.config },
            };
            let (s1, o1) = save_asked(s, storage_key(st.root), after.config);
            match o1 {
                Outcome::Got(_) => (
                    s1,
                    Outcome::Got(
                        (permissions_patch(after.folder(), named_root_index(st, params)), after),
                    ),
                ),
                _ => (s1, stopped(o1)),
            }
        },
        None => (
            s,
            Outcome::Got((permissions_patch(st.folder(), named_root_index(st, params)), st)),
        ),
    }
}

/// The outcome of a result that is a value and a state.
pub open spec fn reply_outcome(r: Result<(Json, DailyState), Stop>) -> Outcome<
    (JsonView, StateView),
> {
    match r {
        Ok(value) => Outcome::Got((value.0@, value.1@)),
        Err(Stop::Fail(message)) => Outcome::Failed(message@),
        Err(Stop::Ask(action)) => Outcome::Waiting(action@),
    }
}

pub fn handle_update_config(session: &mut Session, params: &Json, state: &DailyState) -> (r: Result<
    (Json, DailyState),
    Stop,
>)
    ensures
        (final(session)@, reply_outcome(r)) == config_updated(old(session)@, state@, params@),
{
    let mut after = state.clone();
    if let Some(folder) = extract_entry_folder_update(params) {
        after = DailyState {
            workspace_root: after.workspace_root,
            config: DailyPluginConfig {
                entry_folder: folder,
                entry_template: after.config.entry_template,
                migrated_legacy_config: after.config.migrated_legacy_config,
            },
        };
        match save_workspace_config(session, &after) {
            Ok(_) => {},
            Err(stop) => return Err(stop),
        }
    }
    let folder = after.config.effective_entry_folder();
    let root_index: Option<&str> = match params.get_str("root_index_path") {
        Some(path) => Some(path),
        None => match after.root() {
            Some(root) => if ends_with(root, ".md") {
                Some(root)
            } else {
                None
            },
            None => None,
        },
    };
    let patch = build_permissions_patch(folder.as_str(), root_index);
    Ok((patch, after))
}

/// The settings after new ones were given: the folder without slashes at its
/// ends, and the take-over never undone.
pub open spec fn config_merged(current: ConfigView, given: ConfigView) -> ConfigView {
    ConfigView {
        entry_folder: match given.entry_folder {
            Some(folder) => Some(slash_trimmed(folder)),
            None => None,
        },
        entry_template: given.entry_template,
        migrated_legacy_config: current.migrated_legacy_config || given.migrated_legacy_config,
    }
}

/// Sets new settings and keeps them.
pub open spec fn config_set(s: Talk, st: StateView, given: ConfigView) -> (
    Talk,
    Outcome<(StateView, bool)>,
) {
    let after = StateView { root: st.root, config: config_merged(st.config, given) };
    let (s1, o1) = save_asked(s, storage_key(st.root), after.config);
    match o1 {
        Outcome::Got(_) => (s1, Outcome::Got((after, true))),
        _ => (s1, stopped(o1)),
    }
}

/// Sets the settings that the host gives. The result is the state after it.
pub fn apply_config(session: &mut Session, given: DailyPluginConfig, state: &DailyState) -> (r:
    Result<(DailyState, bool), Stop>)
    ensures
        (final(session)@, state_outcome(r)) == config_set(old(session)@, state@, given@),
{
    let entry_folder = match given.entry_folder {
        Some(folder) => Some(trim_slashes(folder.as_str())),
        None => None,
    };
    let after = DailyState {
        workspace_root: state.workspace_root.clone(),
        config: DailyPluginConfig {
            entry_folder,
            entry_template: given.entry_template,
            migrated_legacy_config: state.config.migrated_legacy_config
                || given.migrated_legacy_config,
        },
    };
    match save_workspace_config(session, &after) {
        Ok(_) => Ok((after, true)),
        Err(stop) => Err(stop),
    }
}

// ---------------------------------------------------------------------------
// Laws
// ---------------------------------------------------------------------------

/// A setting that is made is never replaced by one of an earlier version.
pub proof fn law_settings_win(
    s: Talk,
    config: ConfigView,
    candidates: Seq<Seq<char>>,
    any: bool,
)
    ensures
        legacy_migrated(s, config, candidates, any).1 matches Outcome::Got((after, _)) ==> {
            &&& config.entry_folder is Some && config.entry_folder->0.len() > 0
                ==> after.entry_folder == config.entry_folder
            &&& config.entry_template is Some && config.entry_template->0.len() > 0
                ==> after.entry_template == config.entry_template
            &&& after.migrated_legacy_config == config.migrated_legacy_config
        },
    decreases candidates.len(),
{
    if candidates.len() > 0 {
        let path = candidates[0];
        let rest = candidates.drop_first();
        let (s1, o1) = exists_asked(s, path);
        match o1 {
            Outcome::Got(true) => {
                let (s2, o2) = markdown_asked(s1, path);
                if let Outcome::Got(file) = o2 {
                    let taken = legacy_taken(config, file.0);
                    let s3 = markdown_written(s2, path, taken.fields, file.1).0;
                    law_settings_win(s3, taken.config, rest, true);
                    law_settings_win(s2, taken.config, rest, any);
                }
            },
            Outcome::Got(false) => law_settings_win(s1, config, rest, any),
            _ => {},
        }
    }
}

/// Opening a workspace always comes to an end with its root: with what was loaded
/// where the take-over or a save fails, else with the state that the take-over
/// gives. Whether settings were taken over is told in both cases.
pub proof fn law_opening_keeps(s: Talk, st: StateView)
    ensures
        match opening_finished(s, st).1 {
            Outcome::Got(opened) => {
                &&& opened.state.root == st.root
                &&& opened.failure is Some ==> opened.state == st
                &&& opened.failure is None ==> {
                    &&& migrated(s, st).1 == Outcome::Got((opened.state, opened.taken))
                    &&& opened.state.config.migrated_legacy_config
                }
                &&& opened.taken == (taken_over(s, st).1 matches Outcome::Got((_, any)) && any)
            },
            Outcome::Failed(_) => false,
            Outcome::Waiting(_) => true,
        },
{
}

/// The settings of earlier versions are taken over once: after it, another
/// attempt asks nothing and changes nothing.
pub proof fn law_migrated_once(s: Talk, later: Talk, st: StateView)
    ensures
        migrated(s, st).1 matches Outcome::Got((after, _)) ==> migrated(later, after) == (
            later,
            Outcome::<(StateView, bool)>::Got((after, false)),
        ),
{
}

/// What is taken over is taken out of the file, and nothing else is.
pub proof fn law_legacy_removed(
    config: ConfigView,
    fields: Seq<(Seq<char>, Field)>,
    other: Seq<char>,
)
    requires
        distinct_keys(fields),
    ensures
        lookup(legacy_taken(config, fields).fields, "daily_entry_folder"@) is None,
        lookup(legacy_taken(config, fields).fields, "daily_template"@) is None,
        other != "daily_entry_folder"@ && other != "daily_template"@ ==> lookup(
            legacy_taken(config, fields).fields,
            other,
        ) == lookup(fields, other),
{
    reveal_strlit("daily_entry_folder");
    reveal_strlit("daily_template");
    assert("daily_entry_folder"@.len() != "daily_template"@.len());
    let rest = without_field(fields, "daily_entry_folder"@);
    law_remove_field(fields, "daily_entry_folder"@, other);
    lemma_still_distinct(fields, "daily_entry_folder"@);
    law_remove_field(rest, "daily_template"@, other);
    law_remove_field(rest, "daily_template"@, "daily_entry_folder"@);
}

proof fn lemma_still_distinct(fields: Seq<(Seq<char>, Field)>, key: Seq<char>)
    requires
        distinct_keys(fields),
    ensures
        distinct_keys(without_field(fields, key)),
        forall|i: int|
            0 <= i < without_field(fields, key).len() ==> exists|j: int|
                0 <= j < fields.len() && #[trigger] fields[j] == #[trigger] without_field(
                    fields,
                    key,
                )[i],
    decreases fields.len(),
{
    if fields.len() > 0 {
        let rest = fields.drop_first();
        let all = without_field(fields, key);
        assert forall|i: int, j: int| 0 <= i < j < rest.len() implies (#[trigger] rest[i]).0 != (
        #[trigger] rest[j]).0 by {
            assert(rest[i] == fields[i + 1] && rest[j] == fields[j + 1]);
        }
        if fields[0].0 == key {
            assert forall|i: int| 0 <= i < all.len() implies exists|j: int|
                0 <= j < fields.len() && #[trigger] fields[j] == #[trigger] all[i] by {
                assert(fields[i + 1] == all[i]);
            }
        } else {
            lemma_still_distinct(rest, key);
            let tail = without_field(rest, key);
            assert forall|i: int| 0 <= i < all.len() implies exists|j: int|
                0 <= j < fields.len() && #[trigger] fields[j] == #[trigger] all[i] by {
                if i == 0 {
                    assert(fields[0] == all[0]);
                } else {
                    assert(all[i] == tail[i - 1]);
                    let j = choose|j: int| 0 <= j < rest.len() && #[trigger] rest[j] == tail[i - 1];
                    assert(fields[j + 1] == all[i]);
                }
            }
            assert forall|i: int, j: int| 0 <= i < j < all.len() implies (#[trigger] all[i]).0 != (
            #[trigger] all[j]).0 by {
                if i == 0 {
                    assert(all[j] == tail[j - 1]);
                    let k = choose|k: int| 0 <= k < rest.len() && #[trigger] rest[k] == tail[j - 1];
                    assert(rest[k] == fields[k + 1]);
                } else {
                    assert(all[i] == tail[i - 1] && all[j] == tail[j - 1]);
                }
            }
        }
    }
}

/// Whether the host sets the folder of daily entries: as a field of the workspace
/// settings, or in the settings of the plugin.
pub open spec fn sets_folder(params: JsonView, value: JsonView) -> bool {
    if params.text_field("source"@) == Some("workspace_config"@) {
        params.text_field("field"@) == Some("daily_entry_folder"@) && params.field("value"@) == Some(
            value,
        )
    } else {
        params.field("config"@) matches Some(config) && config.field("entry_folder"@) == Some(value)
    }
}

/// The root index that counts for the permissions: the one that the host names, or the
/// root where it is a Markdown file.
pub open spec fn index_meant(
    st: StateView,
    params: JsonView,
    root_index: Option<Seq<char>>,
) -> bool {
    match params.text_field("root_index_path"@) {
        Some(path) => root_index == Some(path),
        None => match st.root {
            Some(root) => if ".md"@.is_suffix_of(root) {
                root_index == st.root
            } else {
                root_index is None
            },
            None => root_index is None,
        },
    }
}

/// A new folder is kept under the key of the workspace, without slashes at its ends,
/// and none where it has no name. All other settings stay. When they are kept, the
/// reply asks for the permissions of the new folder; when that fails, so does the
/// change.
pub proof fn law_folder_set(
    s: Talk,
    st: StateView,
    params: JsonView,
    value: JsonView,
    folder: Seq<char>,
    root_index: Option<Seq<char>>,
)
    requires
        sets_folder(params, value),
        value matches JsonView::Text(text) ==> slash_trimmed(text) == folder,
        value !is Text ==> folder.len() == 0,
        index_meant(st, params, root_index),
    ensures
        ({
            let (t, o) = config_updated(s, st, params);
            let kept = ConfigView {
                entry_folder: if folder.len() == 0 {
                    None
                } else {
                    Some(folder)
                },
                entry_template: st.config.entry_template,
                migrated_legacy_config: st.config.migrated_legacy_config,
            };
            let ask = Ask::Save(storage_key(st.root), kept);
            let name = if folder.len() == 0 {
                "Daily"@
            } else {
                folder
            };
            match s.reply() {
                Some(Answer::Done(Ok(_))) => {
                    &&& t == s.noted(ask)
                    &&& o == Outcome::Got(
                        (
                            permissions_patch(name, root_index),
                            StateView { root: st.root, config: kept },
                        ),
                    )
                },
                Some(Answer::Done(Err(e))) => t == s.noted(ask) && o == Outcome::<
                    (JsonView, StateView),
                >::Failed(e),
                _ => t == s && o == Outcome::<(JsonView, StateView)>::Waiting(ask),
            }
        }),
{
    if let JsonView::Text(text) = value {
        law_folder_normalized(text);
    }
    let none = Seq::<char>::empty();
    assert(slash_trimmed(none) == none);
}

/// A change that is not about the folder asks and changes nothing; the reply still tells
/// the permissions.
pub proof fn law_folder_not_set(
    s: Talk,
    st: StateView,
    params: JsonView,
    root_index: Option<Seq<char>>,
)
    requires
        index_meant(st, params, root_index),
        if params.text_field("source"@) == Some("workspace_config"@) {
            params.text_field("field"@) != Some("daily_entry_folder"@)
        } else {
            params.field("config"@) matches Some(config) ==> config.field("entry_folder"@) is None
        },
    ensures
        config_updated(s, st, params) == (
            s,
            Outcome::Got((permissions_patch(st.folder(), root_index), st)),
        ),
{
}

/// Settings that the host gives take the place of all settings and are kept under the
/// key of the workspace: the folder without slashes at its ends, the template as it
/// is. That settings were taken over is never undone.
pub proof fn law_config_set(s: Talk, st: StateView, given: ConfigView)
    ensures
        ({
            let (t, o) = config_set(s, st, given);
            let kept = ConfigView {
                entry_folder: if given.entry_folder is Some {
                    Some(slash_trimmed(given.entry_folder->0))
                } else {
                    None
                },
                entry_template: given.entry_template,
                migrated_legacy_config: st.config.migrated_legacy_config
                    || given.migrated_legacy_config,
            };
            let ask = Ask::Save(storage_key(st.root), kept);
            match s.reply() {
                Some(Answer::Done(Ok(_))) => t == s.noted(ask) && o == Outcome::Got(
                    (StateView { root: st.root, config: kept }, true),
                ),
                Some(Answer::Done(Err(e))) => t == s.noted(ask) && o == Outcome::<
                    (StateView, bool),
                >::Failed(e),
                _ => t == s && o == Outcome::<(StateView, bool)>::Waiting(ask),
            }
        }),
{
}

/// A setting that is not made is the one that a file holds as a text. What a file
/// holds otherwise, or does not hold, changes nothing.
pub proof fn law_legacy_counts(config: ConfigView, fields: Seq<(Seq<char>, Field)>)
    requires
        distinct_keys(fields),
    ensures
        ({
            let taken = legacy_taken(config, fields);
            let folder = lookup(fields, "daily_entry_folder"@);
            let template = lookup(fields, "daily_template"@);
            &&& match folder {
                Some(Field::Text(text)) => taken.found && ((config.entry_folder is None
                    || config.entry_folder->0.len() == 0) ==> taken.config.entry_folder == Some(
                    text,
                )),
                _ => taken.config.entry_folder == config.entry_folder,
            }
            &&& match template {
                Some(Field::Text(text)) => taken.found && ((config.entry_template is None
                    || config.entry_template->0.len() == 0) ==> taken.config.entry_template == Some(
                    text,
                )),
                _ => taken.config.entry_template == config.entry_template,
            }
            &&& !(folder matches Some(Field::Text(_))) && !(template matches Some(Field::Text(_)))
                ==> !taken.found
        }),
{
    reveal_strlit("daily_entry_folder");
    reveal_strlit("daily_template");
    assert("daily_entry_folder"@.len() != "daily_template"@.len());
    law_remove_field(fields, "daily_entry_folder"@, "daily_template"@);
}

/// The first file that is there gives its settings before all others: it is asked for,
/// read, and written without them.
pub proof fn law_first_file_wins(
    s: Talk,
    config: ConfigView,
    candidates: Seq<Seq<char>>,
    any: bool,
    text: Seq<char>,
    fields: Seq<(Seq<char>, Field)>,
    body: Seq<char>,
)
    requires
        candidates.len() > 0,
        distinct_keys(fields),
        exists_asked(s, candidates[0]).1 == Outcome::Got(true),
        markdown_asked(exists_asked(s, candidates[0]).0, candidates[0]).1 == Outcome::Got(
            (fields, body),
        ),
    ensures
        legacy_migrated(s, config, candidates, any).1 matches Outcome::Got((after, found)) ==> {
            &&& lookup(fields, "daily_entry_folder"@) == Some(Field::Text(text)) && text.len() > 0
                && config.entry_folder is None ==> found && after.entry_folder == Some(text)
            &&& lookup(fields, "daily_template"@) == Some(Field::Text(text)) && text.len() > 0
                && config.entry_template is None ==> found && after.entry_template == Some(text)
        },
{
    law_legacy_counts(config, fields);
    let (s1, _) = exists_asked(s, candidates[0]);
    let (s2, _) = markdown_asked(s1, candidates[0]);
    let taken = legacy_taken(config, fields);
    let (s3, o3) = markdown_written(s2, candidates[0], taken.fields, body);
    let rest = candidates.drop_first();
    if taken.found && o3 is Got {
        law_settings_win(s3, taken.config, rest, true);
        lemma_any_stays(s3, taken.config, rest);
    }
}

proof fn lemma_any_stays(s: Talk, config: ConfigView, candidates: Seq<Seq<char>>)
    ensures
        legacy_migrated(s, config, candidates, true).1 matches Outcome::Got((_, found)) ==> found,
    decreases candidates.len(),
{
    if candidates.len() > 0 {
        let path = candidates[0];
        let rest = candidates.drop_first();
        let (s1, o1) = exists_asked(s, path);
        match o1 {
            Outcome::Got(true) => {
                let (s2, o2) = markdown_asked(s1, path);
                if let Outcome::Got(file) = o2 {
                    let taken = legacy_taken(config, file.0);
                    let s3 = markdown_written(s2, path, taken.fields, file.1).0;
                    lemma_any_stays(s3, taken.config, rest);
                    lemma_any_stays(s2, taken.config, rest);
                }
            },
            Outcome::Got(false) => lemma_any_stays(s1, config, rest),
            _ => {},
        }
    }
}

/// A workspace is opened with the settings that are kept under its key, or with none.
/// Where settings were not taken over yet that is tried in the files of the root index,
/// and what comes of it is kept twice: when it is taken over, and at the end.
pub proof fn law_opening(s: Talk, root: Option<Seq<char>>)
    ensures
        ({
            let none = ConfigView {
                entry_folder: None,
                entry_template: None,
                migrated_legacy_config: false,
            };
            let (t, o) = root_updated(s, root);
            let read = s.noted(Ask::Load(storage_key(root)));
            match s.reply() {
                Some(Answer::Config(found)) => {
                    let config = if found is Some {
                        found->0
                    } else {
                        none
                    };
                    let st = StateView { root, config };
                    &&& (t, o) == opening_finished(read, st)
                    &&& config.migrated_legacy_config ==> (t, o) == {
                        match read.reply() {
                            Some(Answer::Done(Ok(_))) => (
                                read.noted(Ask::Save(storage_key(root), config)),
                                Outcome::Got(
                                    OpenedView { state: st, taken: false, failure: None },
                                ),
                            ),
                            Some(Answer::Done(Err(e))) => (
                                read.noted(Ask::Save(storage_key(root), config)),
                                Outcome::Got(
                                    OpenedView { state: st, taken: false, failure: Some(e) },
                                ),
                            ),
                            _ => (
                                read,
                                Outcome::<OpenedView>::Waiting(Ask::Save(storage_key(root), config)),
                            ),
                        }
                    }
                    &&& !config.migrated_legacy_config ==> ({
                        let (found, taken) = legacy_migrated(
                            read,
                            config,
                            root_candidates(root),
                            false,
                        );
                        &&& taken matches Outcome::Failed(e) ==> t == found && o == Outcome::Got(
                            OpenedView { state: st, taken: false, failure: Some(e) },
                        )
                        &&& taken matches Outcome::Waiting(ask) ==> t == found && o == Outcome::<
                            OpenedView,
                        >::Waiting(ask)
                        &&& taken matches Outcome::Got((after, any)) ==> {
                            let kept = ConfigView {
                                entry_folder: after.entry_folder,
                                entry_template: after.entry_template,
                                migrated_legacy_config: true,
                            };
                            let ask = Ask::Save(storage_key(root), kept);
                            let opened = OpenedView {
                                state: StateView { root, config: kept },
                                taken: any,
                                failure: None,
                            };
                            &&& o == Outcome::Got(opened) ==> t == found.noted(ask).noted(ask)
                            &&& o matches Outcome::Waiting(a) ==> a == ask
                            &&& o matches Outcome::Got(got) ==> got == opened || (got.failure is Some
                                && got.state == st && got.taken == any)
                        }
                    })
                },
                _ => t == s && o == Outcome::<OpenedView>::Waiting(Ask::Load(storage_key(root))),
            }
        }),
{
}

/// The settings of earlier versions are taken over from the files of the root index and
/// then kept, with the mark that this was done, under the key of the workspace. Nothing
/// is asked where it was done before.
pub proof fn law_migrated(s: Talk, st: StateView)
    ensures
        ({
            let (t, o) = migrated(s, st);
            let (found, taken) = legacy_migrated(s, st.config, root_candidates(st.root), false);
            &&& st.config.migrated_legacy_config ==> t == s && o == Outcome::Got((st, false))
            &&& !st.config.migrated_legacy_config ==> match taken {
                Outcome::Got((after, any)) => {
                    let kept = ConfigView {
                        entry_folder: after.entry_folder,
                        entry_template: after.entry_template,
                        migrated_legacy_config: true,
                    };
                    let ask = Ask::Save(storage_key(st.root), kept);
                    match found.reply() {
                        Some(Answer::Done(Ok(_))) => t == found.noted(ask) && o == Outcome::Got(
                            (StateView { root: st.root, config: kept }, any),
                        ),
                        Some(Answer::Done(Err(e))) => t == found.noted(ask) && o == Outcome::<
                            (StateView, bool),
                        >::Failed(e),
                        _ => t == found && o == Outcome::<(StateView, bool)>::Waiting(ask),
                    }
                },
                Outcome::Failed(e) => t == found && o == Outcome::<(StateView, bool)>::Failed(e),
                Outcome::Waiting(ask) => t == found && o == Outcome::<(StateView, bool)>::Waiting(
                    ask,
                ),
            }
        }),
{
}

} // verus!
