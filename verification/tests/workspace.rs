use std::collections::hash_map::DefaultHasher;
use std::hash::{Hash, Hasher};

use diaryx_daily::json::Json;
use diaryx_daily::permissions::{
    build_permissions_patch, build_requested_permissions, requested_permissions_for,
};
use diaryx_daily::workspace::{
    find_root_index_candidates, is_absolute_path, normalize_rel_path, reference_text, relative_ref,
    resolve_link_path, resolve_target, root_index_rel_candidates, root_index_scope,
    storage_key_for_workspace, to_fs_path, to_workspace_rel, unique_scopes, LinkTarget,
};

/// The texts of a list of scopes of one rule.
fn scopes(rules: &Json, rule: &str) -> Vec<String> {
    rules
        .get(rule)
        .unwrap()
        .get_list("include")
        .unwrap()
        .iter()
        .map(|v| v.as_str().unwrap().to_string())
        .collect()
}

#[test]
fn default_requested_permissions_scope_daily_folder_and_root_index() {
    let permissions = requested_permissions_for("Daily", Some("README.md"));
    let read_include = permissions
        .get("defaults")
        .unwrap()
        .get("read_files")
        .unwrap()
        .get_list("include")
        .expect("read include array");
    let create_include = permissions
        .get("defaults")
        .unwrap()
        .get("create_files")
        .unwrap()
        .get_list("include")
        .expect("create include array");

    assert_eq!(read_include.len(), 2);
    assert_eq!(read_include[0].as_str(), Some("Daily"));
    assert_eq!(read_include[1].as_str(), Some("README.md"));
    assert_eq!(create_include[0].as_str(), Some("Daily"));
}

#[test]
fn resolve_link_path_workspace_root_link() {
    let resolved =
        resolve_link_path("[2026 Index](/Daily/2026/2026_index.md)", "Daily/daily_index.md");
    assert_eq!(resolved, "Daily/2026/2026_index.md");
}

#[test]
fn resolve_link_path_relative_link() {
    let resolved = resolve_link_path("2026/2026_index.md", "Daily/daily_index.md");
    assert_eq!(resolved, "Daily/2026/2026_index.md");
}

#[test]
fn resolve_link_path_angle_bracket_root_link() {
    let resolved = resolve_link_path(
        "[2025 03 Entries](</Daily/2025/03/2025-03 entries.md>)",
        "Daily/2025/2025_index.md",
    );
    assert_eq!(resolved, "Daily/2025/03/2025-03 entries.md");
}

#[test]
fn resolve_link_path_relative_entry_from_month_index() {
    let resolved = resolve_link_path("2025-09-19.md", "Daily/2025/09/09.md");
    assert_eq!(resolved, "Daily/2025/09/2025-09-19.md");
}

#[test]
fn permissions_patch_replaces_daily_file_rules() {
    let patch = build_permissions_patch("Journal/Daily", Some("/README.md"));
    let inner = patch.get("plugin_permissions_patch").unwrap();

    assert_eq!(inner.get_str("mode"), Some("replace"));
    let edit = scopes(inner.get("permissions").unwrap(), "edit_files");
    assert_eq!(edit[0], "Journal/Daily");
    assert_eq!(edit[1], "README.md");
}

#[test]
fn permissions_name_each_scope_once() {
    let rules = build_requested_permissions("README.md", None);
    assert_eq!(scopes(&rules.defaults, "edit_files"), vec!["README.md"]);
    assert_eq!(scopes(&rules.defaults, "create_files"), vec!["README.md"]);
    assert_eq!(scopes(&rules.defaults, "plugin_storage"), vec!["all"]);
    let rules = build_requested_permissions("", Some("Home.md"));
    assert_eq!(scopes(&rules.defaults, "read_files"), vec!["Home.md"]);
    assert_eq!(scopes(&rules.defaults, "create_files"), vec![""]);
    assert_eq!(rules.reasons.len(), 4);
    assert_eq!(rules.reasons[2].0, "create_files");
    assert_eq!(
        rules.reasons[2].1,
        "Create missing year, month, and daily entry files for new dates."
    );
    let given = vec!["a".to_string(), "".to_string(), "b".to_string(), "a".to_string()];
    assert_eq!(unique_scopes(given), vec!["a", "b"]);
}

#[test]
fn workspace_paths_are_plain() {
    assert_eq!(normalize_rel_path("././a\\b"), "a/b");
    assert_eq!(normalize_rel_path("//a"), "a");
    assert_eq!(normalize_rel_path("/./a"), "./a");
    assert!(is_absolute_path("/a"));
    assert!(is_absolute_path("C:\\a"));
    assert!(!is_absolute_path("a:b".get(1..).unwrap()));
    assert!(!is_absolute_path("\u{e9}:"));
    assert!(!is_absolute_path(""));
}

#[test]
fn files_stand_below_the_root() {
    assert_eq!(to_fs_path("a/b.md", None), "a/b.md");
    assert_eq!(to_fs_path("a/b.md", Some("  ")), "a/b.md");
    assert_eq!(to_fs_path("a/b.md", Some(".")), "a/b.md");
    assert_eq!(to_fs_path("./a/b.md", Some("/ws")), "/ws/a/b.md");
    assert_eq!(to_fs_path("/a/b.md", Some("/ws/")), "/ws/a/b.md");
    assert_eq!(to_fs_path("a/b.md", Some("notes")), "notes/a/b.md");
    assert_eq!(to_fs_path("a/b.md", Some("/ws/Home.md")), "/ws/a/b.md");
    assert_eq!(to_fs_path("a/b.md", Some("Home.md")), "a/b.md");
}

#[test]
fn files_are_seen_from_the_root() {
    assert_eq!(to_workspace_rel("/ws/a/b.md", Some("/ws")), "a/b.md");
    assert_eq!(to_workspace_rel("/ws/a/b.md", Some("/other")), "ws/a/b.md");
    assert_eq!(to_workspace_rel("/wsx/b.md", Some("/ws")), "wsx/b.md");
    assert_eq!(to_workspace_rel("a\\b.md", Some("/ws")), "a/b.md");
    assert_eq!(to_workspace_rel("./a/b.md", None), "a/b.md");
    assert_eq!(to_workspace_rel("C:\\ws\\a.md", Some("C:\\ws")), "C:/ws/a.md");
    for rel in ["a.md", "Daily/2026/03/2026-03-02.md", "x/y z.md"] {
        for root in ["/ws", "/", "/a//b/./c", "/ws/"] {
            assert_eq!(to_workspace_rel(&to_fs_path(rel, Some(root)), Some(root)), rel);
        }
    }
}

#[test]
fn storage_keys_hash_the_root() {
    for root in [Some("/ws"), Some(""), Some("caf\u{e9}"), None] {
        let mut hasher = DefaultHasher::new();
        root.unwrap_or("__default__").hash(&mut hasher);
        assert_eq!(
            storage_key_for_workspace(root),
            format!("daily.config.{:x}", hasher.finish())
        );
    }
}

#[test]
fn references_lead_from_file_to_file() {
    assert_eq!(relative_ref("Daily/2026/2026_index.md", "Daily/daily_index.md"), "../daily_index.md");
    assert_eq!(
        relative_ref("Daily/daily_index.md", "Daily/2026/2026_index.md"),
        "2026/2026_index.md"
    );
    assert_eq!(relative_ref("a/b/c.md", "x/y.md"), "../../x/y.md");
    assert_eq!(relative_ref("a.md", "a.md"), "a.md");
    assert_eq!(relative_ref("", "b.md"), "b.md");
    assert_eq!(relative_ref("/abs/c.md", "x\\y.md"), "x/y.md");
    assert_eq!(relative_ref("c.md", "/abs/x.md"), "/abs/x.md");
    assert_eq!(reference_text("x\\y.md", None), "x/y.md");
    assert_eq!(reference_text("x.md", Some("..\\x.md")), "../x.md");
}

#[test]
fn references_resolve_to_their_file() {
    for (from, to) in [
        ("Daily/daily_index.md", "Daily/2026/2026_index.md"),
        ("README.md", "Daily/daily_index.md"),
        ("a/b.md", "a/c d.md"),
    ] {
        assert_eq!(resolve_link_path(&relative_ref(from, to), from), to);
    }
    assert_eq!(resolve_link_path("  /x/y.md ", "a/b.md"), "x/y.md");
    assert_eq!(resolve_link_path("[T](b.md)", "a/c.md"), "a/b.md");
    assert_eq!(resolve_link_path("[T (/u)](b.md)", "a/c.md"), "a/b.md");
    assert_eq!(resolve_link_path("[T](/x/b (1).md)", "a/c.md"), "x/b (1).md");
    assert_eq!(resolve_link_path("", "a/c.md"), "a/");
    assert_eq!(resolve_link_path("/", "a/c.md"), "");
    let target = |path: &str, from_root: bool| LinkTarget { path: path.to_string(), from_root };
    assert_eq!(resolve_target("[T]()", "a/c.md", &target("", false)), "a/[T]()");
    assert_eq!(resolve_target("x", "a/c.md", &target("/y", false)), "y");
    assert_eq!(resolve_target("x", "a/c.md", &target("y", true)), "y");
    assert_eq!(resolve_target("x", "a/c.md", &target("y", false)), "a/y");
}

#[test]
fn root_indexes() {
    assert_eq!(root_index_scope(None), "README.md");
    assert_eq!(root_index_scope(Some("  ")), "README.md");
    assert_eq!(root_index_scope(Some("/ws/Home.md")), "Home.md");
    assert_eq!(root_index_scope(Some("/")), "README.md");
    assert_eq!(root_index_scope(Some("./x/Home.md ")), "x/Home.md");
    assert_eq!(root_index_scope(Some("//")), "README.md");
    assert_eq!(find_root_index_candidates(None), vec!["README.md"]);
    assert_eq!(find_root_index_candidates(Some("/ws")), vec!["/ws/README.md", "README.md"]);
    assert_eq!(find_root_index_candidates(Some("/ws/H.md")), vec!["/ws/H.md", "README.md"]);
    assert_eq!(root_index_rel_candidates(Some("/ws/H.md")), vec!["H.md", "README.md"]);
    assert_eq!(root_index_rel_candidates(Some("/ws/README.md")), vec!["README.md"]);
    assert_eq!(root_index_rel_candidates(Some("/ws")), vec!["README.md"]);
    assert_eq!(root_index_rel_candidates(None), vec!["README.md"]);
}

#[test]
fn links_lead_to_the_path_in_their_brackets() {
    for (entry, expected) in [
        ("[a](<b c.md>)", "D/b c.md"),
        ("[a](</b (1).md>)", "b (1).md"),
        ("  [](<../x.md>) ", "D/../x.md"),
        ("[a (b)](<c(.md>)", "D/c(.md"),
        ("[a](/b (1).md)", "b (1).md"),
        ("[a](b (c (d)).md)", "D/b (c (d)).md"),
    ] {
        assert_eq!(resolve_link_path(entry, "D/i.md"), expected, "{entry}");
    }
}
