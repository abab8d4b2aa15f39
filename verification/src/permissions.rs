//! What the plugin asks the user to allow.

use vstd::prelude::*;

use crate::daily_logic::opt_view;
use crate::json::{
    first_field, law_field_pushed, list, no_fields, text_values, texts, words, Fields, Json, JsonView,
};
use crate::text::views;
use crate::workspace::{
    distinct_scopes, law_root_scope_not_empty, normalize_rel_path, rel_path, root_index_scope,
    root_scope, unique_scopes,
};

verus! {

/// A rule that allows some scopes and excepts none.
pub open spec fn scope_rule(scopes: Seq<Seq<char>>) -> JsonView {
    JsonView::Object(
        no_fields().push(("include"@, text_values(scopes))).push(
            ("exclude"@, JsonView::List(Seq::<JsonView>::empty())),
        ),
    )
}

/// The files that are read and edited: those of the folder, and the root index.
pub open spec fn edited_scopes(folder: Seq<char>, root_index: Option<Seq<char>>) -> Seq<Seq<char>> {
    distinct_scopes(seq![rel_path(folder), root_scope(root_index)])
}

/// The rules that the plugin asks for.
pub open spec fn permission_rules(folder: Seq<char>, root_index: Option<Seq<char>>) -> JsonView {
    let edited = edited_scopes(folder, root_index);
    JsonView::Object(
        no_fields().push(("read_files"@, scope_rule(edited))).push(
            ("edit_files"@, scope_rule(edited)),
        ).push(("create_files"@, scope_rule(seq![rel_path(folder)]))).push(
            ("plugin_storage"@, scope_rule(seq!["all"@])),
        ),
    )
}

/// The reason for each rule.
pub open spec fn permission_reasons() -> Seq<(Seq<char>, Seq<char>)> {
    seq![
        (
            "read_files"@,
            "Read daily entries, index files, and optional templates from the workspace."@,
        ),
        (
            "edit_files"@,
            "Update the root index plus year, month, and daily entry files when organizing the daily hierarchy."@,
        ),
        (
            "create_files"@,
            "Create missing year, month, and daily entry files for new dates."@,
        ),
        (
            "plugin_storage"@,
            "Persist daily plugin configuration for the current workspace."@,
        ),
    ]
}

/// The reasons as the fields of an object.
pub open spec fn reason_fields(reasons: Seq<(Seq<char>, Seq<char>)>) -> Seq<(Seq<char>, JsonView)> {
    reasons.map_values(|p: (Seq<char>, Seq<char>)| (p.0, JsonView::Text(p.1)))
}

fn rule(scopes: &Vec<String>) -> (r: Json)
    ensures
        r@ == scope_rule(views(scopes@)),
{
    let none: Vec<Json> = Vec::new();
    let exclude = list(none);
    assert(exclude@->List_0 =~= Seq::<JsonView>::empty());
    Fields::new().with("include", texts(scopes)).with("exclude", exclude).into_json()
}

fn rules(folder: &str, root_index_path: Option<&str>) -> (r: Json)
    ensures
        r@ == permission_rules(folder@, opt_view(root_index_path)),
{
    let folder_scope = normalize_rel_path(folder);
    let root_scope = root_index_scope(root_index_path);
    let mut both: Vec<String> = Vec::new();
    both.push(folder_scope.clone());
    both.push(root_scope);
    assert(views(both@) =~= seq![rel_path(folder@), root_scope@]);
    let edited = unique_scopes(both);
    let mut created: Vec<String> = Vec::new();
    created.push(folder_scope);
    assert(views(created@) =~= seq![rel_path(folder@)]);
    let mut stored: Vec<String> = Vec::new();
    stored.push("all".to_owned());
    assert(views(stored@) =~= seq!["all"@]);
    Fields::new().with("read_files", rule(&edited)).with("edit_files", rule(&edited)).with(
        "create_files",
        rule(&created),
    ).with("plugin_storage", rule(&stored)).into_json()
}

/// The rules that the plugin asks for and the reason for each, as a JSON object.
pub fn requested_permissions_for(folder: &str, root_index_path: Option<&str>) -> (r: Json)
    ensures
        r@ == JsonView::Object(
            no_fields().push(
                ("defaults"@, permission_rules(folder@, opt_view(root_index_path))),
            ).push(("reasons"@, JsonView::Object(reason_fields(permission_reasons())))),
        ),
{
    let reasons = Fields::new().with(
        "read_files",
        words("Read daily entries, index files, and optional templates from the workspace."),
    ).with(
        "edit_files",
        words(
            "Update the root index plus year, month, and daily entry files when organizing the daily hierarchy.",
        ),
    ).with(
        "create_files",
        words("Create missing year, month, and daily entry files for new dates."),
    ).with(
        "plugin_storage",
        words("Persist daily plugin configuration for the current workspace."),
    );
    assert(reasons@ =~= reason_fields(permission_reasons()));
    Fields::new().with("defaults", rules(folder, root_index_path)).with(
        "reasons",
        reasons.into_json(),
    ).into_json()
}

/// The permissions that a manifest asks for.
#[derive(Debug)]
pub struct RequestedPermissions {
    pub defaults: Json,
    /// The reason for each rule, by the name of the rule.
    pub reasons: Vec<(String, String)>,
}

/// The pairs of texts of a list.
pub open spec fn pair_views(v: Seq<(String, String)>) -> Seq<(Seq<char>, Seq<char>)> {
    v.map_values(|p: (String, String)| (p.0@, p.1@))
}

pub fn build_requested_permissions(folder: &str, root_index_path: Option<&str>) -> (r:
    RequestedPermissions)
    ensures
        r.defaults@ == permission_rules(folder@, opt_view(root_index_path)),
        pair_views(r.reasons@) == permission_reasons(),
{
    let mut reasons: Vec<(String, String)> = Vec::new();
    reasons.push(
        (
            "read_files".to_owned(),
            "Read daily entries, index files, and optional templates from the workspace.".to_owned(),
        ),
    );
    reasons.push(
        (
            "edit_files".to_owned(),
            "Update the root index plus year, month, and daily entry files when organizing the daily hierarchy.".to_owned(),
        ),
    );
    reasons.push(
        (
            "create_files".to_owned(),
            "Create missing year, month, and daily entry files for new dates.".to_owned(),
        ),
    );
    reasons.push(
        (
            "plugin_storage".to_owned(),
            "Persist daily plugin configuration for the current workspace.".to_owned(),
        ),
    );
    assert(pair_views(reasons@) =~= permission_reasons());
    RequestedPermissions { defaults: rules(folder, root_index_path), reasons }
}

/// The change that replaces the rules of the plugin.
pub open spec fn permissions_patch(folder: Seq<char>, root_index: Option<Seq<char>>) -> JsonView {
    let patch = JsonView::Object(
        no_fields().push(("plugin_id"@, JsonView::Text("diaryx.daily"@))).push(
            ("mode"@, JsonView::Text("replace"@)),
        ).push(("permissions"@, permission_rules(folder, root_index))),
    );
    JsonView::Object(no_fields().push(("plugin_permissions_patch"@, patch)))
}

pub fn build_permissions_patch(folder: &str, root_index_path: Option<&str>) -> (r: Json)
    ensures
        r@ == permissions_patch(folder@, opt_view(root_index_path)),
{
    let patch = Fields::new().with("plugin_id", words("diaryx.daily")).with(
        "mode",
        words("replace"),
    ).with("permissions", rules(folder, root_index_path)).into_json();
    Fields::new().with("plugin_permissions_patch", patch).into_json()
}

/// The plugin asks to edit the daily folder and the root index, each once, and
/// nothing else.
pub proof fn law_edited_scopes(folder: Seq<char>, root_index: Option<Seq<char>>)
    ensures
        edited_scopes(folder, root_index) == if rel_path(folder).len() == 0 || rel_path(folder)
            == root_scope(root_index) {
            seq![root_scope(root_index)]
        } else {
            seq![rel_path(folder), root_scope(root_index)]
        },
{
    let f = rel_path(folder);
    let r = root_scope(root_index);
    law_root_scope_not_empty(root_index);
    let both = seq![f, r];
    assert(both.drop_last() =~= seq![f]);
    assert(seq![f].drop_last() =~= Seq::empty());
    reveal_with_fuel(distinct_scopes, 3);
    let first = distinct_scopes(seq![f]);
    assert(first == if f.len() > 0 {
        Seq::<Seq<char>>::empty().push(f)
    } else {
        Seq::<Seq<char>>::empty()
    });
    if f.len() > 0 {
        assert(first[0] == f);
        assert(first.contains(r) <==> r == f);
    }
}

/// Whether rules allow just these scopes for what is named.
pub open spec fn allows(rules: JsonView, name: Seq<char>, scopes: Seq<Seq<char>>) -> bool {
    rules.field(name) matches Some(rule) && {
        &&& rule.list_field("include"@).len() == scopes.len()
        &&& forall|i: int|
            0 <= i < scopes.len() ==> (#[trigger] rule.list_field("include"@)[i])
                == JsonView::Text(scopes[i])
        &&& rule.field("exclude"@) == Some(JsonView::List(Seq::<JsonView>::empty()))
    }
}

proof fn lemma_scope_rule(scopes: Seq<Seq<char>>)
    ensures
        scope_rule(scopes).field("include"@) == Some(text_values(scopes)),
        scope_rule(scopes).field("exclude"@) == Some(JsonView::List(Seq::<JsonView>::empty())),
{
    reveal_strlit("include");
    reveal_strlit("exclude");
    assert("include"@[0] == 'i' && "exclude"@[0] == 'e');
    let a = ("include"@, text_values(scopes));
    let b = ("exclude"@, JsonView::List(Seq::<JsonView>::empty()));
    law_field_pushed(no_fields(), a, "include"@);
    law_field_pushed(no_fields().push(a), b, "include"@);
    law_field_pushed(no_fields(), a, "exclude"@);
    law_field_pushed(no_fields().push(a), b, "exclude"@);
}

/// The plugin asks to read and to edit what is below the daily folder and the root
/// index, to create files in the daily folder alone, and to keep its settings.
pub proof fn law_rules(folder: Seq<char>, root_index: Option<Seq<char>>)
    ensures
        ({
            let rules = permission_rules(folder, root_index);
            let (f, r) = (rel_path(folder), root_scope(root_index));
            let edited = if f.len() == 0 || f == r {
                seq![r]
            } else {
                seq![f, r]
            };
            &&& allows(rules, "read_files"@, edited)
            &&& allows(rules, "edit_files"@, edited)
            &&& allows(rules, "create_files"@, seq![f])
            &&& allows(rules, "plugin_storage"@, seq!["all"@])
        }),
{
    reveal_strlit("read_files");
    reveal_strlit("edit_files");
    reveal_strlit("create_files");
    reveal_strlit("plugin_storage");
    assert("read_files"@[0] == 'r' && "edit_files"@[0] == 'e');
    assert("read_files"@.len() == 10 && "edit_files"@.len() == 10);
    assert("create_files"@.len() == 12 && "plugin_storage"@.len() == 14);
    law_edited_scopes(folder, root_index);
    let edited = edited_scopes(folder, root_index);
    lemma_scope_rule(edited);
    lemma_scope_rule(seq![rel_path(folder)]);
    lemma_scope_rule(seq!["all"@]);
    let a = ("read_files"@, scope_rule(edited));
    let b = ("edit_files"@, scope_rule(edited));
    let c = ("create_files"@, scope_rule(seq![rel_path(folder)]));
    let d = ("plugin_storage"@, scope_rule(seq!["all"@]));
    let keys = seq!["read_files"@, "edit_files"@, "create_files"@, "plugin_storage"@];
    assert forall|k: int| 0 <= k < 4 implies #[trigger] first_field(
        no_fields().push(a).push(b).push(c).push(d),
        keys[k],
    ) == Some(seq![a.1, b.1, c.1, d.1][k]) by {
        law_field_pushed(no_fields(), a, keys[k]);
        law_field_pushed(no_fields().push(a), b, keys[k]);
        law_field_pushed(no_fields().push(a).push(b), c, keys[k]);
        law_field_pushed(no_fields().push(a).push(b).push(c), d, keys[k]);
    }
    assert(keys[0] == "read_files"@ && keys[1] == "edit_files"@ && keys[2] == "create_files"@
        && keys[3] == "plugin_storage"@);
}

/// The change of the permissions is one for this plugin, and replaces its rules.
pub proof fn law_patch(folder: Seq<char>, root_index: Option<Seq<char>>)
    ensures
        permissions_patch(folder, root_index).field("plugin_permissions_patch"@) matches Some(
            patch,
        ) && patch.text_field("plugin_id"@) == Some("diaryx.daily"@) && patch.text_field("mode"@)
            == Some("replace"@) && patch.field("permissions"@) == Some(
            permission_rules(folder, root_index),
        ),
{
    reveal_strlit("plugin_id");
    reveal_strlit("mode");
    reveal_strlit("permissions");
    assert("plugin_id"@.len() == 9 && "mode"@.len() == 4 && "permissions"@.len() == 11);
    let a = ("plugin_id"@, JsonView::Text("diaryx.daily"@));
    let b = ("mode"@, JsonView::Text("replace"@));
    let c = ("permissions"@, permission_rules(folder, root_index));
    let keys = seq!["plugin_id"@, "mode"@, "permissions"@];
    assert forall|k: int| 0 <= k < 3 implies #[trigger] first_field(
        no_fields().push(a).push(b).push(c),
        keys[k],
    ) == Some(seq![a.1, b.1, c.1][k]) by {
        law_field_pushed(no_fields(), a, keys[k]);
        law_field_pushed(no_fields().push(a), b, keys[k]);
        law_field_pushed(no_fields().push(a).push(b), c, keys[k]);
    }
    assert(keys[0] == "plugin_id"@ && keys[1] == "mode"@ && keys[2] == "permissions"@);
    let patch = JsonView::Object(no_fields().push(a).push(b).push(c));
    law_field_pushed(no_fields(), ("plugin_permissions_patch"@, patch), "plugin_permissions_patch"@);
}

} // verus!
