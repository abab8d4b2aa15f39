use std::collections::BTreeMap;

use diaryx_daily::commands::{
    dispatch_command, get_component_html_by_id, import_entry, requested_component, Import, Progress,
};
use diaryx_daily::daily_logic::DailyPluginConfig;
use diaryx_daily::date::CalendarDate;
use diaryx_daily::entries::{
    add_to_contents, ensure_daily_entry_for_date, ensure_index_file, infer_entry_date,
    resolve_template_source, set_part_of, DailyState,
};
use diaryx_daily::json::Json;
use diaryx_daily::listing::{
    dates_from_month_index, days_of_files, find_month_index_via_tree, order_days,
};
use diaryx_daily::plugin::{
    all_commands, command_request, component_name, component_page, event_root,
    event_workspace_root, manifest, typed_answer, typed_command, typed_request, typed_result,
};
use diaryx_daily::session::{Action, Reply, Session, Stop};
use diaryx_daily::settings::{
    apply_config, extract_entry_folder_update, finish_opening, load_workspace,
    migrate_legacy_config, update_workspace_root, Opened,
};
use diaryx_daily::workspace::storage_key_for_workspace;

/// A host with files in memory.
struct Host {
    files: BTreeMap<String, String>,
    kept: BTreeMap<String, DailyPluginConfig>,
    now: String,
    writes: Vec<String>,
    locked: Vec<String>,
    room: usize,
}

fn host() -> Host {
    Host {
        files: BTreeMap::new(),
        kept: BTreeMap::new(),
        now: " 2026-03-05T10:11:12-07:00\n".to_string(),
        writes: Vec::new(),
        locked: Vec::new(),
        room: usize::MAX,
    }
}

fn perform(host: &mut Host, action: &Action) -> Reply {
    match action {
        Action::FileExists(path) => Reply::Exists(Ok(host.files.contains_key(path))),
        Action::ReadFile(path) => Reply::Content(match host.files.get(path) {
            Some(text) => Ok(text.clone()),
            None => Err(format!("no file {path}")),
        }),
        Action::WriteFile(path, text) => {
            if host.locked.contains(path) {
                return Reply::Done(Err(format!("locked {path}")));
            }
            host.writes.push(path.clone());
            host.files.insert(path.clone(), text.clone());
            Reply::Done(Ok(()))
        }
        Action::ListFiles(prefix) => Reply::Files(Ok(
            host.files.keys().filter(|k| k.starts_with(prefix.as_str())).cloned().collect(),
        )),
        Action::Now => Reply::Content(Ok(host.now.clone())),
        Action::SaveConfig(key, config) => {
            if host.room == 0 {
                return Reply::Done(Err("no room".to_string()));
            }
            host.room -= 1;
            host.kept.insert(key.clone(), config.clone());
            Reply::Done(Ok(()))
        }
        Action::LoadConfig(key) => Reply::Config(host.kept.get(key).cloned()),
    }
}

/// Runs an operation to its end.
fn finish<T>(
    host: &mut Host,
    mut step: impl FnMut(&mut Session) -> Result<T, Stop>,
) -> Result<T, String> {
    let mut session = Session::new();
    loop {
        session.restart();
        match step(&mut session) {
            Ok(value) => return Ok(value),
            Err(Stop::Fail(message)) => return Err(message),
            Err(Stop::Ask(action)) => {
                let reply = perform(host, &action);
                session.answer(reply);
            }
        }
    }
}

fn command(
    host: &mut Host,
    state: &DailyState,
    name: &str,
    params: &Json,
) -> Result<(Json, DailyState), String> {
    let mut progress = Progress::new();
    loop {
        match dispatch_command(&mut progress, name, params, state, "<panel>") {
            Ok(value) => return Ok(value),
            Err(Stop::Fail(message)) => return Err(message),
            Err(Stop::Ask(action)) => {
                let reply = perform(host, &action);
                progress.answer(reply);
            }
        }
    }
}

fn object(fields: Vec<(&str, Json)>) -> Json {
    Json::Object(fields.into_iter().map(|(k, v)| (k.to_string(), v)).collect())
}

fn text(s: &str) -> Json {
    Json::Text(s.to_string())
}

fn state(root: Option<&str>) -> DailyState {
    DailyState {
        workspace_root: root.map(|s| s.to_string()),
        config: DailyPluginConfig::default(),
    }
}

fn date(year: i32, month: u32, day: u32) -> CalendarDate {
    CalendarDate::from_ymd_opt(year, month, day).unwrap()
}

#[test]
fn a_new_entry_comes_with_its_indexes() {
    let mut host = host();
    host.files.insert("/ws/README.md".to_string(), "# Home\n".to_string());
    host.files.insert("/ws/other.md".to_string(), "kept".to_string());
    let st = state(Some("/ws"));
    let params = object(vec![("date", text("2026-03-02"))]);
    let (reply, _) = command(&mut host, &st, "EnsureDailyEntry", &params).unwrap();
    assert_eq!(reply.get_str("path"), Some("Daily/2026/03/2026-03-02.md"));
    assert_eq!(reply.get_bool("created"), Some(true));
    assert_eq!(reply.get_str("date"), Some("2026-03-02"));

    assert_eq!(host.files.len(), 6);
    assert_eq!(host.files["/ws/other.md"], "kept");
    assert_eq!(
        host.files["/ws/README.md"],
        "---\ncontents:\n- Daily/daily_index.md\n---\n# Home\n"
    );
    assert_eq!(
        host.files["/ws/Daily/daily_index.md"],
        "---\ntitle: Daily Index\ndescription: Date-based daily entry hierarchy\npart_of: ../README.md\ncontents:\n- 2026/2026_index.md\n---\n\n# Daily Index\n"
    );
    assert_eq!(
        host.files["/ws/Daily/2026/2026_index.md"],
        "---\ntitle: '2026'\npart_of: ../daily_index.md\ncontents:\n- 03/2026_march.md\n---\n\n# 2026\n"
    );
    assert_eq!(
        host.files["/ws/Daily/2026/03/2026_march.md"],
        "---\ntitle: March 2026\npart_of: ../2026_index.md\ncontents:\n- 2026-03-02.md\n---\n\n# March 2026\n"
    );
    assert_eq!(
        host.files["/ws/Daily/2026/03/2026-03-02.md"],
        "---\ntitle: March 02, 2026\ndate: 2026-03-02\ncreated: 2026-03-05T10:11:12-07:00\npart_of: 2026_march.md\n---\n\n# March 02, 2026\n\n"
    );

    let files = host.files.clone();
    host.writes.clear();
    let (again, _) = command(&mut host, &st, "EnsureDailyEntry", &params).unwrap();
    assert_eq!(again.get_bool("created"), Some(false));
    assert_eq!(host.files, files);
    assert_eq!(host.writes, vec!["/ws/Daily/2026/03/2026-03-02.md"]);
}

#[test]
fn an_entry_that_is_there_keeps_its_text() {
    let mut host = host();
    host.files.insert(
        "Daily/2026/03/2026-03-02.md".to_string(),
        "---\nmood: good\nnumber: 3\n---\nMy day.\n---\nmore\n".to_string(),
    );
    let st = state(None);
    let (path, created) =
        finish(&mut host, |s| ensure_daily_entry_for_date(s, date(2026, 3, 2), &st)).unwrap();
    assert_eq!((path.as_str(), created), ("Daily/2026/03/2026-03-02.md", false));
    assert_eq!(
        host.files["Daily/2026/03/2026-03-02.md"],
        "---\nmood: good\nnumber: 3\npart_of: 2026_march.md\n---\nMy day.\n---\nmore\n"
    );
    assert!(!host.files.contains_key("README.md"));
}

#[test]
fn folders_of_any_script_are_linked_once() {
    let mut host = host();
    let mut st = state(None);
    st.config.entry_folder = Some("Journal \u{65e5}\u{8a18} \u{e9}t\u{e9}".to_string());
    host.files.insert("README.md".to_string(), "---\ntitle: \u{dc}bersicht\n---\n".to_string());
    finish(&mut host, |s| ensure_daily_entry_for_date(s, date(2026, 3, 2), &st)).unwrap();
    assert_eq!(
        host.files["README.md"],
        "---\ntitle: \u{dc}bersicht\ncontents:\n- Journal \u{65e5}\u{8a18} \u{e9}t\u{e9}/daily_index.md\n---\n"
    );
    let files = host.files.clone();
    host.writes.clear();
    finish(&mut host, |s| ensure_daily_entry_for_date(s, date(2026, 3, 2), &st)).unwrap();
    assert_eq!(host.files, files);
    assert_eq!(host.writes.len(), 1);
}

#[test]
fn an_entry_that_is_the_root_index_lists_the_daily_index() {
    let mut host = host();
    let place = "Daily/2026/03/Daily/2026/03/2026-03-02.md";
    host.files.insert(place.to_string(), "---\nmood: good\n---\nMy day.\n".to_string());
    let st = state(Some("Daily/2026/03/2026-03-02.md"));
    let text =
        "---\nmood: good\ncontents:\n- ../../daily_index.md\npart_of: 2026_march.md\n---\nMy day.\n";
    for _ in 0..2 {
        let (_, created) =
            finish(&mut host, |s| ensure_daily_entry_for_date(s, date(2026, 3, 2), &st)).unwrap();
        assert!(!created);
        assert_eq!(host.files[place], text);
    }
}

#[test]
fn index_files_are_set_right() {
    let mut host = host();
    let st = state(None);
    let new =
        finish(&mut host, |s| ensure_index_file(s, &st, "i.md", "T", Some("D"), Some("p.md")));
    assert_eq!(new, Ok(true));
    let full = "---\ntitle: T\ndescription: D\npart_of: p.md\ncontents: []\n---\n\n# T\n";
    assert_eq!(host.files["i.md"], full);
    host.writes.clear();
    let old =
        finish(&mut host, |s| ensure_index_file(s, &st, "i.md", "T", Some("D"), Some("p.md")));
    assert_eq!(old, Ok(false));
    assert!(host.writes.is_empty());
    host.files.insert("j.md".to_string(), "---\ncontents: none\ntitle: Old\n---\nbody".to_string());
    finish(&mut host, |s| ensure_index_file(s, &st, "j.md", "T", None, None)).unwrap();
    assert_eq!(host.files["j.md"], "---\ncontents: []\ntitle: T\n---\nbody");
    host.files.insert("k.md".to_string(), "---\ntitle: [\n---\n".to_string());
    assert!(finish(&mut host, |s| ensure_index_file(s, &st, "k.md", "T", None, None)).is_err());
    host.locked.push("l.md".to_string());
    assert_eq!(
        finish(&mut host, |s| ensure_index_file(s, &st, "l.md", "T", None, None)),
        Err("locked l.md".to_string())
    );
}

#[test]
fn contents_hold_a_file_once() {
    let mut host = host();
    let st = state(None);
    host.files.insert("i.md".to_string(), "---\ncontents:\n- a.md\n- 3\n---\nx".to_string());
    let add = |s: &mut Session| add_to_contents(s, &state(None), "i.md", "sub/b.md");
    assert_eq!(finish(&mut host, add), Ok(true));
    assert_eq!(host.files["i.md"], "---\ncontents:\n- a.md\n- sub/b.md\n---\nx");
    assert_eq!(finish(&mut host, add), Ok(false));
    assert_eq!(
        finish(&mut host, |s| add_to_contents(s, &st, "none.md", "b.md")),
        Err("no file none.md".to_string())
    );
    finish(&mut host, |s| set_part_of(s, &st, "i.md", "up/p.md")).unwrap();
    assert_eq!(
        host.files["i.md"],
        "---\ncontents:\n- a.md\n- sub/b.md\npart_of: up/p.md\n---\nx"
    );
}

#[test]
fn templates_come_from_the_settings() {
    let mut host = host();
    host.files.insert("t/day.md".to_string(), "from file".to_string());
    host.files.insert("t/blank.md".to_string(), " \n".to_string());
    let default = diaryx_daily::daily_logic::default_entry_template();
    for (setting, expected) in [
        (None, default),
        (Some("  {{title}} "), "{{title}}"),
        (Some("a\nb"), "a\nb"),
        (Some("t/day.md"), "from file"),
        (Some("[Day](/t/day.md)"), "from file"),
        (Some("t/blank.md"), default),
        (Some("t/none.md"), default),
        (Some(""), default),
    ] {
        let mut st = state(None);
        st.config.entry_template = setting.map(|s| s.to_string());
        let found = finish(&mut host, |s| resolve_template_source(s, &st)).unwrap();
        assert_eq!(found, expected, "{setting:?}");
    }
}

#[test]
fn dates_of_files() {
    let mut host = host();
    let st = state(None);
    for (text, expected) in [
        ("---\ndate: 2024-02-29\ncreated: 2020-01-01\n---\n", date(2024, 2, 29)),
        ("---\ndate: nonsense\ncreated: 2020-01-01\n---\n", date(2020, 1, 1)),
        ("---\ndate: 5\nupdated: 2026-03-06T00:30:00Z\n---\n", date(2026, 3, 5)),
        ("---\ncreated: 2026-03-06T00:30:00Z\n---\n", date(2026, 3, 6)),
        ("---\nupdated: yesterday\n---\n", date(2026, 3, 4)),
        ("---\ndate: may 5, 100000\n---\n", date(100000, 5, 5)),
        ("---\ndate: 4 July f\u{ea}te\ncreated: 2020-01-01\n---\n", date(2026, 7, 4)),
        ("---\ndate: 99999999999 days\ncreated: 100000 days ago\n---\n", date(1752, 5, 20)),
        ("plain", date(2026, 3, 5)),
    ] {
        host.files.insert("f.md".to_string(), text.to_string());
        assert_eq!(finish(&mut host, |s| infer_entry_date(s, "f.md", &st)), Ok(expected), "{text}");
    }
    host.now = "noon".to_string();
    let error = finish(&mut host, |s| infer_entry_date(s, "f.md", &st)).unwrap_err();
    assert!(error.starts_with("failed to parse host_get_now response: "), "{error}");
}

#[test]
fn neighbours() {
    let mut host = host();
    let st = state(Some("/ws"));
    let look = object(vec![
        ("path", text("/ws/Daily/2026/03/2026-03-01.md")),
        ("direction", text("prev")),
        ("ensure", Json::Bool(false)),
    ]);
    let (reply, _) = command(&mut host, &st, "GetAdjacentDailyEntry", &look).unwrap();
    assert_eq!(reply.get_str("path"), Some("Daily/2026/02/2026-02-28.md"));
    assert!(reply.get("created").is_none());
    assert!(host.files.is_empty());
    let go = object(vec![("path", text("Daily/2026/03/2026-03-01.md"))]);
    let (reply, _) = command(&mut host, &st, "GetAdjacentDailyEntry", &go).unwrap();
    assert_eq!(reply.get_str("path"), Some("Daily/2026/03/2026-03-02.md"));
    assert_eq!(reply.get_bool("created"), Some(true));
    assert!(host.files.contains_key("/ws/Daily/2026/03/2026-03-02.md"));
    assert_eq!(
        command(&mut host, &st, "GetAdjacentDailyEntry", &Json::Null).unwrap_err(),
        "GetAdjacentDailyEntry requires `path`"
    );
    let wrong = object(vec![("path", text("notes.md"))]);
    assert_eq!(
        command(&mut host, &st, "GetAdjacentDailyEntry", &wrong).unwrap_err(),
        "Path is not a daily entry path"
    );
}

#[test]
fn states_of_entries() {
    let mut host = host();
    let st = state(None);
    let ask = |path: &str| object(vec![("path", text(path))]);
    let (today, _) =
        command(&mut host, &st, "GetEntryState", &ask("D/2026/03/2026-03-05.md")).unwrap();
    assert_eq!(today.get_bool("is_daily"), Some(true));
    assert_eq!(today.get_bool("is_today"), Some(true));
    assert_eq!(today.get_str("date"), Some("2026-03-05"));
    let (other, _) =
        command(&mut host, &st, "GetEntryState", &ask("D/2026/03/2026-03-06.md")).unwrap();
    assert_eq!(other.get_bool("is_today"), Some(false));
    let (none, _) = command(&mut host, &st, "GetEntryState", &ask("notes.md")).unwrap();
    assert_eq!(none.get_bool("is_daily"), Some(false));
    assert!(none.get("date").unwrap().is_null());
    assert_eq!(
        command(&mut host, &st, "GetEntryState", &Json::Null).unwrap_err(),
        "GetEntryState requires `path`"
    );
}

#[test]
fn opening_and_printing() {
    let mut host = host();
    let st = state(None);
    let (reply, _) = command(&mut host, &st, "OpenToday", &Json::Null).unwrap();
    assert_eq!(reply.get_str("__diaryx_cli_action"), Some("open_entry"));
    assert_eq!(reply.get_str("path"), Some("Daily/2026/03/2026-03-05.md"));
    let (reply, _) = command(&mut host, &st, "OpenYesterday", &Json::Null).unwrap();
    assert_eq!(reply.get_str("path"), Some("Daily/2026/03/2026-03-04.md"));
    let print = object(vec![("date", text("tomorrow")), ("print", Json::Bool(true))]);
    let (reply, _) = command(&mut host, &st, "CliDaily", &print).unwrap();
    assert_eq!(reply.get_str("__diaryx_cli_action"), Some("print"));
    assert_eq!(reply.get_str("text"), Some(host.files["Daily/2026/03/2026-03-06.md"].as_str()));
    let (reply, _) = command(&mut host, &st, "CliDaily", &Json::Null).unwrap();
    assert_eq!(reply.get_str("__diaryx_cli_action"), Some("open_entry"));
    assert_eq!(reply.get_bool("created"), Some(false));
    let wrong = object(vec![("date", text("whenever"))]);
    assert_eq!(
        command(&mut host, &st, "CliDaily", &wrong).unwrap_err(),
        "Invalid date format: whenever"
    );
}

#[test]
fn days_of_a_month() {
    let mut host = host();
    let st = state(None);
    for day in ["2026-03-09", "2026-03-02", "2026-04-01"] {
        let params = object(vec![("date", text(day))]);
        command(&mut host, &st, "EnsureDailyEntry", &params).unwrap();
    }
    host.files.insert("Daily/2026/03/2026-03-20.md".to_string(), "unlisted".to_string());
    host.files.remove("Daily/2026/03/2026-03-02.md");
    let params = object(vec![("year", Json::Int(2026)), ("month", Json::Int(3))]);
    let (reply, _) = command(&mut host, &st, "ListDailyEntryDates", &params).unwrap();
    let days: Vec<i128> = reply
        .get_list("dates")
        .unwrap()
        .iter()
        .map(|v| match v {
            Json::Int(n) => *n,
            other => panic!("{other:?}"),
        })
        .collect();
    assert_eq!(days, vec![2, 9, 20]);
    assert_eq!(reply.get_i64("year"), Some(2026));
    assert_eq!(reply.get_i64("month"), Some(3));
    assert_eq!(reply.get_str("folder"), Some("Daily"));
    let empty = object(vec![("year", Json::Int(1999)), ("month", Json::Int(1))]);
    let (reply, _) = command(&mut host, &st, "ListDailyEntryDates", &empty).unwrap();
    assert!(reply.get_list("dates").unwrap().is_empty());
    for (params, error) in [
        (Json::Null, "ListDailyEntryDates requires `year`"),
        (object(vec![("year", Json::Int(1))]), "ListDailyEntryDates requires `month`"),
        (
            object(vec![("year", Json::Int(1)), ("month", Json::Int(13))]),
            "month must be 1-12",
        ),
        (
            object(vec![("year", Json::Int(i64::MAX as i128 + 1)), ("month", Json::Int(3))]),
            "ListDailyEntryDates requires `year`",
        ),
    ] {
        let got = command(&mut host, &st, "ListDailyEntryDates", &params).unwrap_err();
        assert_eq!(got, error);
    }
    let cut = object(vec![("year", Json::Int(4294967296 + 2026)), ("month", Json::Int(4294967299))]);
    let (reply, _) = command(&mut host, &st, "ListDailyEntryDates", &cut).unwrap();
    assert_eq!(reply.get_i64("year"), Some(2026));
    assert_eq!(reply.get_list("dates").unwrap().len(), 3);
}

#[test]
fn month_indexes_are_found_by_the_tree() {
    let mut host = host();
    let st = state(None);
    assert_eq!(
        finish(&mut host, |s| find_month_index_via_tree(s, &st, 2026, 3)),
        Err("no file Daily/daily_index.md".to_string())
    );
    host.files.insert(
        "Daily/daily_index.md".to_string(),
        "---\ncontents:\n- \"[Old](/Daily/2025/2025_index.md)\"\n- 2026_index.md\n---\n".to_string(),
    );
    host.files.insert(
        "Daily/2026_index.md".to_string(),
        "---\ncontents:\n- 2026/02/feb.md\n- \"[M](<2026/03/my march.md>)\"\n---\n".to_string(),
    );
    host.files.insert(
        "Daily/2026/03/my march.md".to_string(),
        "---\ncontents:\n- 2026-03-02.md\n- other/2026-03-07.md\n- 2026-04-01.md\n- x.md\n---\n"
            .to_string(),
    );
    let found = finish(&mut host, |s| find_month_index_via_tree(s, &st, 2026, 3)).unwrap();
    assert_eq!(found.as_deref(), Some("Daily/2026/03/my march.md"));
    assert_eq!(finish(&mut host, |s| find_month_index_via_tree(s, &st, 2026, 4)), Ok(None));
    assert_eq!(finish(&mut host, |s| find_month_index_via_tree(s, &st, 2027, 4)), Ok(None));
    let days = finish(&mut host, |s| {
        dates_from_month_index(s, &st, "Daily/2026/03/my march.md", 2026, 3)
    });
    assert_eq!(days, Ok(vec![2, 7]));
    assert_eq!(order_days(&vec![7, 2, 31, 7]), vec![2, 7, 31]);
    let files = vec!["a/2026/03/2026-03-08.md".to_string(), "2026-03-09.md".to_string()];
    assert_eq!(days_of_files(&files, 2026, 3), vec![8]);
}

#[test]
fn imports_count_what_they_do() {
    let mut host = host();
    let st = state(None);
    host.files.insert("in/a.md".to_string(), "---\ndate: 2026-03-02\n---\nA".to_string());
    host.files.insert("in/b.md".to_string(), "B".to_string());
    let entries = || {
        Json::List(vec![
            text("in/a.md"),
            object(vec![("path", text("in/b.md")), ("date", text("2026-03-03"))]),
            text("  "),
            Json::Null,
            object(vec![("path", text("in/b.md")), ("date", text("whenever"))]),
            text("in/none.md"),
        ])
    };
    let params = object(vec![("entries", entries())]);
    let (reply, _) = command(&mut host, &st, "ImportEntriesToDaily", &params).unwrap();
    assert_eq!(reply.get_i64("imported"), Some(2));
    assert_eq!(reply.get_bool("dry_run"), Some(false));
    let errors = reply.get_list("errors").unwrap();
    assert_eq!(errors.len(), 2);
    assert_eq!(errors[0].as_str(), Some("in/b.md: Invalid date format: whenever"));
    assert_eq!(errors[1].as_str(), Some("in/none.md: no file in/none.md"));
    assert_eq!(
        host.files["in/a.md"],
        "---\ndate: 2026-03-02\npart_of: ../Daily/2026/03/2026-03-02.md\n---\nA"
    );
    assert!(host.files["Daily/2026/03/2026-03-03.md"].contains("- ../../../in/b.md\n"));

    let dry = object(vec![("dry_run", Json::Bool(true)), ("entries", Json::List(vec![text("in/b.md")]))]);
    let before = host.files["in/b.md"].clone();
    let (reply, _) = command(&mut host, &st, "ImportEntriesToDaily", &dry).unwrap();
    assert_eq!(reply.get_i64("imported"), Some(1));
    assert_eq!(host.files["in/b.md"], before);
    let (reply, _) = command(&mut host, &st, "ImportEntriesToDaily", &Json::Null).unwrap();
    assert_eq!(reply.get_i64("imported"), Some(0));

    let one = finish(&mut host, |s| import_entry(s, &st, &text(""), false)).unwrap();
    assert!(matches!(one, Import::Skipped));
    host.now = "never".to_string();
    assert!(command(&mut host, &st, "ImportEntriesToDaily", &params).is_err());
}

#[test]
fn earlier_settings_are_taken_over_once() {
    let mut host = host();
    let st = state(Some("/ws"));
    host.files.insert(
        "/ws/README.md".to_string(),
        "---\ntitle: Home\ndaily_entry_folder: Log\ndaily_template: T\nz: 1\n---\nbody".to_string(),
    );
    host.files.insert("README.md".to_string(), "---\ndaily_entry_folder: X\n---\n".to_string());
    let (after, any) = finish(&mut host, |s| migrate_legacy_config(s, &st)).unwrap();
    assert!(any);
    assert_eq!(after.config.entry_folder.as_deref(), Some("Log"));
    assert_eq!(after.config.entry_template.as_deref(), Some("T"));
    assert!(after.config.migrated_legacy_config);
    assert_eq!(host.files["/ws/README.md"], "---\ntitle: Home\nz: 1\n---\nbody");
    assert_eq!(host.files["README.md"], "---\n{}\n---\n");
    let kept = &host.kept[&storage_key_for_workspace(Some("/ws"))];
    assert_eq!(kept.entry_folder.as_deref(), Some("Log"));
    host.writes.clear();
    let (same, any) = finish(&mut host, |s| migrate_legacy_config(s, &after)).unwrap();
    assert!(!any && host.writes.is_empty());
    assert_eq!(same.config.entry_folder.as_deref(), Some("Log"));

    let mut set = state(None);
    set.config.entry_folder = Some("Mine".to_string());
    set.config.entry_template = Some(String::new());
    host.files.insert(
        "README.md".to_string(),
        "---\ndaily_entry_folder: X\ndaily_template: Y\n---\n".to_string(),
    );
    let (after, _) = finish(&mut host, |s| migrate_legacy_config(s, &set)).unwrap();
    assert_eq!(after.config.entry_folder.as_deref(), Some("Mine"));
    assert_eq!(after.config.entry_template.as_deref(), Some("Y"));
}

#[test]
fn workspaces_open_even_where_the_takeover_fails() {
    let mut host = host();
    let key = storage_key_for_workspace(Some("/ws"));
    let mut kept = DailyPluginConfig::default();
    kept.entry_folder = Some("Kept".to_string());
    host.kept.insert(key, kept);
    host.files.insert("/ws/README.md".to_string(), "---\na: [\n---\n".to_string());
    let root = || Some("/ws".to_string());
    let opened: Opened = finish(&mut host, |s| update_workspace_root(s, root())).unwrap();
    assert!(!opened.taken && opened.failure.is_some());
    assert_eq!(opened.state.workspace_root.as_deref(), Some("/ws"));
    assert_eq!(opened.state.config.entry_folder.as_deref(), Some("Kept"));
    assert!(!opened.state.config.migrated_legacy_config);
    host.files.clear();
    let opened = finish(&mut host, |s| update_workspace_root(s, root())).unwrap();
    assert!(!opened.taken && opened.failure.is_none());
    assert!(opened.state.config.migrated_legacy_config);
    let opened = finish(&mut host, |s| update_workspace_root(s, None)).unwrap();
    assert_eq!(opened.state.config.entry_folder, None);
}

#[test]
fn settings_that_were_taken_over_are_told_where_a_save_fails() {
    for room in 0..3 {
        let mut host = host();
        host.room = room;
        host.files.insert(
            "/ws/README.md".to_string(),
            "---\ndaily_entry_folder: Log\n---\n".to_string(),
        );
        let loaded = finish(&mut host, |s| load_workspace(s, Some("/ws".to_string()))).unwrap();
        assert_eq!(loaded.workspace_root.as_deref(), Some("/ws"));
        assert_eq!(loaded.config.entry_folder, None);
        let opened = finish(&mut host, |s| finish_opening(s, loaded.clone())).unwrap();
        assert!(opened.taken);
        let failure = if room < 2 { Some("no room") } else { None };
        assert_eq!(opened.failure.as_deref(), failure);
        let folder = if room < 2 { None } else { Some("Log") };
        assert_eq!(opened.state.config.entry_folder.as_deref(), folder);
        assert_eq!(opened.state.config.migrated_legacy_config, room == 2);
        assert_eq!(host.kept.contains_key(&storage_key_for_workspace(Some("/ws"))), room > 0);
    }
}

#[test]
fn settings_change_the_permissions() {
    let mut host = host();
    let st = state(Some("/ws/Home.md"));
    let params = object(vec![
        ("source", text("workspace_config")),
        ("field", text("daily_entry_folder")),
        ("value", text("/Log/")),
    ]);
    let (reply, after) = command(&mut host, &st, "UpdateConfig", &params).unwrap();
    assert_eq!(after.config.entry_folder.as_deref(), Some("Log"));
    let rules = reply.get("plugin_permissions_patch").unwrap().get("permissions").unwrap();
    let edited = rules.get("edit_files").unwrap().get_list("include").unwrap();
    assert_eq!(edited[0].as_str(), Some("Log"));
    assert_eq!(edited[1].as_str(), Some("Home.md"));
    assert_eq!(host.kept.len(), 1);
    let other = object(vec![("root_index_path", text("Start.md"))]);
    let (reply, same) = command(&mut host, &after, "UpdateConfig", &other).unwrap();
    assert_eq!(same.config.entry_folder.as_deref(), Some("Log"));
    let rules = reply.get("plugin_permissions_patch").unwrap().get("permissions").unwrap();
    let read = rules.get("read_files").unwrap().get_list("include").unwrap();
    assert_eq!(read[1].as_str(), Some("Start.md"));
}

#[test]
fn folder_updates_are_read() {
    let config = |value: Json| object(vec![("config", object(vec![("entry_folder", value)]))]);
    assert_eq!(extract_entry_folder_update(&Json::Null), None);
    assert_eq!(extract_entry_folder_update(&config(Json::Null)), Some(None));
    assert_eq!(extract_entry_folder_update(&config(text("/a/"))), Some(Some("a".to_string())));
    assert_eq!(extract_entry_folder_update(&config(text("//"))), Some(None));
    assert_eq!(extract_entry_folder_update(&config(Json::Int(3))), Some(None));
    assert_eq!(extract_entry_folder_update(&object(vec![("config", Json::Null)])), None);
    let field = |name: &str| {
        object(vec![("source", text("workspace_config")), ("field", text(name))])
    };
    assert_eq!(extract_entry_folder_update(&field("other")), None);
    assert_eq!(extract_entry_folder_update(&field("daily_entry_folder")), Some(None));
}

#[test]
fn given_settings_are_merged() {
    let mut host = host();
    let mut st = state(None);
    st.config.migrated_legacy_config = true;
    let mut given = DailyPluginConfig::default();
    given.entry_folder = Some("//Log/".to_string());
    given.entry_template = Some("T".to_string());
    let (after, _) = finish(&mut host, |s| apply_config(s, given.clone(), &st)).unwrap();
    assert_eq!(after.config.entry_folder.as_deref(), Some("Log"));
    assert_eq!(after.config.entry_template.as_deref(), Some("T"));
    assert!(after.config.migrated_legacy_config);
    assert_eq!(host.kept.len(), 1);
}

#[test]
fn every_command_is_known() {
    let mut host = host();
    let st = state(None);
    let names = all_commands();
    assert_eq!(names.len(), 10);
    for name in &names {
        if let Err(message) = command(&mut host, &st, name, &Json::Null) {
            assert!(!message.starts_with("Unknown command"), "{message}");
        }
    }
    assert_eq!(command(&mut host, &st, "Fly", &Json::Null).unwrap_err(), "Unknown command: Fly");
}

#[test]
fn components_are_found_by_name() {
    assert_eq!(get_component_html_by_id("daily.panel", "<p>"), Ok("<p>".to_string()));
    assert_eq!(
        get_component_html_by_id("x", "<p>"),
        Err("Unknown component id: x".to_string())
    );
    assert_eq!(requested_component(&Json::Null), "daily.panel");
    assert_eq!(requested_component(&object(vec![("component_id", text("c"))])), "c");
    assert_eq!(component_name(" \n"), Some("daily.panel".to_string()));
    assert_eq!(component_name("  {\"a\": 1}"), None);
    assert_eq!(component_name(" x "), Some("x".to_string()));
    let mut host = host();
    let (reply, _) = command(&mut host, &state(None), "get_component_html", &Json::Null).unwrap();
    assert_eq!(reply.as_str(), Some("<panel>"));
}

#[test]
fn the_manifest_names_the_plugin() {
    let m = manifest("1.2.3");
    assert_eq!((m.id.as_str(), m.name.as_str(), m.version.as_str()), ("diaryx.daily", "Daily", "1.2.3"));
    assert_eq!(m.capabilities, vec!["workspace_events", "custom_commands"]);
    assert_eq!(m.ui.len(), 3);
    assert_eq!(m.ui[0].get("component").unwrap().get_str("component_id"), Some("daily.panel"));
    assert_eq!(m.ui[2].get_str("plugin_command"), Some("OpenYesterday"));
    assert_eq!(m.cli.len(), 1);
    assert_eq!(m.cli[0].get_str("command_name"), Some("CliDaily"));
    assert_eq!(m.cli[0].get_str("about"), Some("Daily entry commands"));
    assert_eq!(m.cli[0].get_list("args").unwrap().len(), 2);
    assert_eq!(m.commands, all_commands());
    assert_eq!(m.requested_permissions.reasons[0].0, "read_files");
}

#[test]
fn requests_of_the_host_are_read() {
    let request = object(vec![("type", text("OpenToday"))]);
    assert_eq!(typed_command(&request).unwrap(), "OpenToday");
    assert_eq!(typed_command(&Json::Null).unwrap_err(), "Missing `type` in typed command");
    let result = typed_result(Json::Bool(true));
    assert_eq!(result.get_str("type"), Some("PluginResult"));
    assert_eq!(result.get_bool("data"), Some(true));
    let opened = object(vec![
        ("event_type", text("workspace_opened")),
        ("payload", object(vec![("workspace_root", text("/ws"))])),
    ]);
    assert_eq!(event_workspace_root(&opened), Some(Some("/ws".to_string())));
    let changed = object(vec![("event_type", text("workspace_changed"))]);
    assert_eq!(event_workspace_root(&changed), Some(None));
    let other = object(vec![("event_type", text("file_saved"))]);
    assert_eq!(event_workspace_root(&other), None);
    assert_eq!(event_workspace_root(&Json::Null), None);
}

#[test]
fn a_session_waits_for_each_reply() {
    let st = state(None);
    let mut session = Session::new();
    match add_to_contents(&mut session, &st, "i.md", "c.md") {
        Err(Stop::Ask(Action::ReadFile(path))) => assert_eq!(path, "i.md"),
        other => panic!("{other:?}"),
    }
    session.answer(Reply::Content(Ok("text".to_string())));
    session.restart();
    match add_to_contents(&mut session, &st, "i.md", "c.md") {
        Err(Stop::Ask(Action::WriteFile(path, content))) => {
            assert_eq!(path, "i.md");
            assert_eq!(content, "---\ncontents:\n- c.md\n---\ntext");
        }
        other => panic!("{other:?}"),
    }
    assert_eq!(session.asked.len(), 1);
    session.answer(Reply::Done(Ok(())));
    session.restart();
    assert_eq!(add_to_contents(&mut session, &st, "i.md", "c.md").unwrap(), true);
}

#[test]
fn texts_of_the_host_are_read() {
    let (command, params) = command_request(
        "{\"command\": \"X\", \"params\": {\"n\": -3, \"u\": 18446744073709551615, \"f\": 1.5, \"l\": [null, true]}}",
    )
    .unwrap();
    assert_eq!(command, "X");
    assert_eq!(params.get_i64("n"), Some(-3));
    assert!(matches!(params.get("u"), Some(Json::Int(18446744073709551615))));
    assert!(matches!(params.get("f"), Some(Json::Number(n)) if n == "1.5"));
    let items = params.get_list("l").unwrap();
    assert!(matches!(items[0], Json::Null) && matches!(items[1], Json::Bool(true)));
    assert_eq!(
        command_request("{\"command\": \"X\"}").unwrap_err(),
        "missing field `params` at line 1 column 16"
    );
    assert!(command_request("[]").is_err());
    assert!(command_request("").is_err());

    let (command, params) = typed_request("{\"type\": \"T\", \"params\": \"p\"}").unwrap();
    assert_eq!(command, "T");
    assert_eq!(params.as_str(), Some("p"));
    let (command, params) = typed_request("{\"type\": \"T\"}").unwrap();
    assert!(command == "T" && params.is_null());
    assert_eq!(typed_request("{\"type\": 1}").unwrap_err(), "Missing `type` in typed command");
    assert_eq!(typed_request("7").unwrap_err(), "Missing `type` in typed command");
    assert_eq!(
        typed_request("{").unwrap_err(),
        "Invalid JSON: EOF while parsing an object at line 1 column 1"
    );

    let answer = typed_answer(Ok(Json::Bool(true))).unwrap();
    assert_eq!(answer.get_str("type"), Some("PluginResult"));
    assert_eq!(answer.get_bool("data"), Some(true));
    assert!(typed_answer(Err("failed".to_string())).is_none());
}

#[test]
fn components_are_asked_for_by_texts() {
    assert_eq!(component_page("", "<p>").unwrap(), "<p>");
    assert_eq!(component_page(" daily.panel\n", "<p>").unwrap(), "<p>");
    assert_eq!(component_page("{}", "<p>").unwrap(), "<p>");
    assert_eq!(component_page("  {\"component_id\": \"daily.panel\"}", "<p>").unwrap(), "<p>");
    assert_eq!(component_page("other", "<p>").unwrap_err(), "Unknown component id: other");
    assert_eq!(
        component_page("{\"component_id\": \"c\"}", "<p>").unwrap_err(),
        "Unknown component id: c"
    );
    assert_eq!(
        component_page("{", "<p>").unwrap_err(),
        "EOF while parsing an object at line 1 column 1"
    );
}

#[test]
fn events_open_workspaces() {
    assert_eq!(
        event_root(
            "{\"event_type\": \"workspace_opened\", \"payload\": {\"workspace_root\": \"/ws\"}}"
        ),
        Some(Some("/ws".to_string()))
    );
    assert_eq!(event_root("{\"event_type\": \"workspace_changed\"}"), Some(None));
    assert_eq!(event_root("{\"event_type\": \"saved\"}"), None);
    assert_eq!(event_root("no json"), None);
}

#[test]
fn an_import_deals_with_every_file() {
    let mut host = host();
    let st = state(None);
    host.files.insert("a.md".to_string(), "---\ndate: 2026-03-01\n---\nA".to_string());
    host.files.insert("b.md".to_string(), "B".to_string());
    let params = object(vec![(
        "entries",
        Json::List(vec![
            text("a.md"),
            text("  "),
            object(vec![("path", text("b.md")), ("date", text("2026-03-02"))]),
            object(vec![("path", text("b.md")), ("date", text("never"))]),
            text("missing.md"),
            Json::Null,
        ]),
    )]);
    let (reply, _) = command(&mut host, &st, "ImportEntriesToDaily", &params).unwrap();
    assert_eq!(reply.get_i64("imported"), Some(2));
    let errors = reply.get_list("errors").unwrap();
    assert_eq!(errors.len(), 2);
    assert_eq!(errors[0].as_str(), Some("b.md: Invalid date format: never"));
    assert_eq!(errors[1].as_str(), Some("missing.md: no file missing.md"));
}

#[test]
fn only_the_host_can_call_a_named_command_unknown() {
    let st = state(None);
    for name in all_commands() {
        let mut progress = Progress::new();
        progress.answer(Reply::Content(Err(format!("Unknown command: {name}"))));
        let asked = dispatch_command(&mut progress, &name, &Json::Null, &st, "<panel>");
        let echoed = matches!(&asked, Err(Stop::Fail(m)) if *m == format!("Unknown command: {name}"));
        let timed = ["EnsureDailyEntry", "OpenToday", "OpenYesterday", "CliDaily"];
        assert_eq!(echoed, timed.contains(&name.as_str()), "{name}");
    }
}
