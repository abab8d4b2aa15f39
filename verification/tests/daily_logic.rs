use diaryx_daily::daily_logic::{
    adjacent_daily_entry_path, date_from_filename, default_entry_template, entry_relative_path,
    is_daily_entry_path, month_index_filename, normalize_folder, parse_date_input,
    parse_rfc3339_date_in_offset, path_to_date, paths_for_date, read_date_input, render_template,
    scoped_path, try_parse_date_input, year_index_filename, DailyDirection, DailyError,
    DailyPluginConfig,
};
use diaryx_daily::date::{day_number, CalendarDate, LocalDateTime, UtcOffset};
use diaryx_daily::english::is_plain_english;

fn date(year: i32, month: u32, day: u32) -> CalendarDate {
    CalendarDate::from_ymd_opt(year, month, day).unwrap()
}

/// 2026-03-05T10:11:12-07:00
fn sample_now() -> LocalDateTime {
    LocalDateTime {
        date: date(2026, 3, 5),
        hour: 10,
        minute: 11,
        second: 12,
        nanosecond: 0,
        offset: UtcOffset { seconds: -7 * 3600 },
    }
}

#[test]
fn parses_daily_path() {
    let parsed = path_to_date("Daily/2026/03/2026-03-02.md").unwrap();
    assert_eq!(parsed, CalendarDate::from_ymd_opt(2026, 3, 2).unwrap());
}

#[test]
fn adjacent_preserves_prefix() {
    let next =
        adjacent_daily_entry_path("Journal/Daily/2026/03/2026-03-02.md", DailyDirection::Next)
            .unwrap();
    assert_eq!(next, "Journal/Daily/2026/03/2026-03-03.md");
}

#[test]
fn default_folder_is_daily() {
    let config = DailyPluginConfig::default();
    assert_eq!(config.effective_entry_folder(), "Daily");
}

#[test]
fn builds_daily_paths() {
    let date = CalendarDate::from_ymd_opt(2026, 3, 2).unwrap();
    let paths = paths_for_date("Daily", date);
    assert_eq!(paths.daily_index, "Daily/daily_index.md");
    assert_eq!(paths.year_index, "Daily/2026/2026_index.md");
    assert_eq!(paths.month_index, "Daily/2026/03/2026_march.md");
    assert_eq!(paths.entry, "Daily/2026/03/2026-03-02.md");
}

#[test]
fn parses_rfc3339_input() {
    let parsed = parse_date_input(Some("2026-03-02T23:45:00-07:00"), &sample_now()).unwrap();
    assert_eq!(parsed, CalendarDate::from_ymd_opt(2026, 3, 2).unwrap());
}

#[test]
fn normalizes_rfc3339_date_to_supplied_offset() {
    let parsed =
        parse_rfc3339_date_in_offset("2026-03-06T00:30:00Z", &sample_now().offset()).unwrap();
    assert_eq!(parsed, CalendarDate::from_ymd_opt(2026, 3, 5).unwrap());
}

#[test]
fn renders_template_with_supplied_timestamp() {
    let rendered = render_template(
        "{{timestamp}}",
        "Ignored",
        CalendarDate::from_ymd_opt(2026, 3, 2).unwrap(),
        "Ignored",
        &sample_now(),
    );
    assert_eq!(rendered, "2026-03-05T10:11:12-07:00");
}

#[test]
fn calendar_knows_its_days() {
    assert!(CalendarDate::from_ymd_opt(2024, 2, 29).is_some());
    assert!(CalendarDate::from_ymd_opt(2026, 2, 29).is_none());
    assert!(CalendarDate::from_ymd_opt(1900, 2, 29).is_none());
    assert!(CalendarDate::from_ymd_opt(2000, 2, 29).is_some());
    assert!(CalendarDate::from_ymd_opt(2026, 4, 31).is_none());
    assert!(CalendarDate::from_ymd_opt(2026, 13, 1).is_none());
    assert!(CalendarDate::from_ymd_opt(2026, 0, 1).is_none());
    assert!(CalendarDate::from_ymd_opt(262143, 1, 1).is_none());
}

#[test]
fn reads_back_every_month_of_a_path() {
    for month in 1..=12 {
        let paths = paths_for_date("Journal/Daily", date(2024, month, 28));
        assert_eq!(path_to_date(&paths.entry).unwrap(), date(2024, month, 28));
        assert!(is_daily_entry_path(&paths.entry));
        assert!(!is_daily_entry_path(&paths.month_index));
        assert!(!is_daily_entry_path(&paths.year_index));
        assert!(!is_daily_entry_path(&paths.daily_index));
    }
    let years = paths_for_date("", date(-5, 1, 2));
    assert_eq!(years.entry, "-0005/01/-0005-01-02.md");
    assert_eq!(path_to_date(&years.entry).unwrap(), date(-5, 1, 2));
    let far = paths_for_date("D", date(12026, 1, 2));
    assert_eq!(far.entry, "D/+12026/01/+12026-01-02.md");
    assert_eq!(path_to_date(&far.entry).unwrap(), date(12026, 1, 2));
}

#[test]
fn reads_back_every_kind_of_year() {
    let mut year = -262143;
    while year <= 262142 {
        for (month, day) in [(1, 1), (2, 28), (10, 9), (12, 31)] {
            let entry = paths_for_date("D", date(year, month, day)).entry;
            assert_eq!(path_to_date(&entry).unwrap(), date(year, month, day), "{entry}");
        }
        year += 97;
    }
    assert_eq!(paths_for_date("D", date(262142, 12, 31)).entry, "D/+262142/12/+262142-12-31.md");
}

#[test]
fn rejects_paths_that_are_no_entries() {
    for path in [
        "",
        "2026-03-02.md",
        "03/2026-03-02.md",
        "Daily/2025/03/2026-03-02.md",
        "Daily/2026/04/2026-03-02.md",
        "Daily/2026/3/2026-03-02.md",
        "Daily/2026/03/2026-03-02.txt",
        "Daily/2026/03/2026-02-30.md",
        "Daily/2026/03/notes.md",
    ] {
        assert!(matches!(path_to_date(path), Err(DailyError::NotDailyPath)), "{path}");
    }
    assert_eq!(path_to_date("C:\\Notes\\2026\\03\\2026-03-02.md").unwrap(), date(2026, 3, 2));
    assert_eq!(path_to_date("/2026//03/2026-03-02.md").unwrap(), date(2026, 3, 2));
    assert_eq!(date_from_filename("elsewhere/2026-03-02.md").unwrap(), date(2026, 3, 2));
    assert!(date_from_filename("elsewhere/notes.md").is_err());
    assert!(date_from_filename("").is_err());
}

#[test]
fn steps_lead_over_months_and_back() {
    let path = "Daily/2024/02/2024-02-29.md";
    let next = adjacent_daily_entry_path(path, DailyDirection::Next).unwrap();
    assert_eq!(next, "Daily/2024/03/2024-03-01.md");
    assert_eq!(adjacent_daily_entry_path(&next, DailyDirection::Prev).unwrap(), path);
    let first = "2026/01/2026-01-01.md";
    let before = adjacent_daily_entry_path(first, DailyDirection::Prev).unwrap();
    assert_eq!(before, "2025/12/2025-12-31.md");
    assert_eq!(adjacent_daily_entry_path(&before, DailyDirection::Next).unwrap(), first);
    assert_eq!(
        adjacent_daily_entry_path("/a//b/2025/12/2025-12-31.md", DailyDirection::Next).unwrap(),
        "a/b/2026/01/2026-01-01.md"
    );
    assert!(adjacent_daily_entry_path("Daily/daily_index.md", DailyDirection::Next).is_err());
    let last = paths_for_date("D", date(262142, 12, 31)).entry;
    assert!(matches!(
        adjacent_daily_entry_path(&last, DailyDirection::Next),
        Err(DailyError::NotDailyPath)
    ));
    let start = paths_for_date("D", date(-262143, 1, 1)).entry;
    assert!(adjacent_daily_entry_path(&start, DailyDirection::Prev).is_err());
}

#[test]
fn reads_dates_that_users_write() {
    let now = sample_now();
    assert_eq!(parse_date_input(None, &now).unwrap(), date(2026, 3, 5));
    assert_eq!(parse_date_input(Some("today"), &now).unwrap(), date(2026, 3, 5));
    assert_eq!(parse_date_input(Some("yesterday"), &now).unwrap(), date(2026, 3, 4));
    assert_eq!(parse_date_input(Some("tomorrow"), &now).unwrap(), date(2026, 3, 6));
    assert_eq!(parse_date_input(Some("2024-02-29"), &now).unwrap(), date(2024, 2, 29));
    assert_eq!(parse_date_input(Some("3 days ago"), &now).unwrap(), date(2026, 3, 2));
    assert_eq!(parse_date_input(Some("4/3/2018"), &now).unwrap(), date(2018, 4, 3));
    match parse_date_input(Some("not a date"), &now) {
        Err(e) => assert_eq!(e.message(), "Invalid date format: not a date"),
        Ok(d) => panic!("{d:?}"),
    }
    assert_eq!(DailyError::NotDailyPath.message(), "Path is not a daily entry path");
}

#[test]
fn reads_any_text_as_an_input() {
    let now = sample_now();
    assert!(matches!(
        try_parse_date_input(Some("caf\u{e9}"), &now),
        Some(Err(DailyError::InvalidDate(_)))
    ));
    assert!(try_parse_date_input(Some("\u{e9}\u{e9}"), &now).is_none());
    assert!(try_parse_date_input(Some("99999999 days"), &now).is_none());
    assert!(try_parse_date_input(Some("today"), &now).is_some());
    assert!(try_parse_date_input(Some("2026-03-02T23:45:00.123456789Z"), &now).is_some());
    match read_date_input(Some("caf\u{e9}"), &now) {
        Err(DailyError::InvalidDate(text)) => assert_eq!(text, "caf\u{e9}"),
        other => panic!("{other:?}"),
    }
    assert_eq!(read_date_input(None, &now).unwrap(), date(2026, 3, 5));
    assert_eq!(read_date_input(Some("yesterday"), &now).unwrap(), date(2026, 3, 4));
    assert_eq!(read_date_input(Some("tomorrow"), &now).unwrap(), date(2026, 3, 6));
    assert_eq!(read_date_input(Some("2024-02-29"), &now).unwrap(), date(2024, 2, 29));
}

#[test]
fn the_rest_of_an_input_does_not_count() {
    let now = sample_now();
    let read = |text: &str| parse_date_input(Some(text), &now).unwrap();
    assert_eq!(read("4 July f\u{ea}te"), date(2026, 7, 4));
    assert_eq!(read("friday 8pm d\u{ee}ner"), date(2026, 3, 6));
    assert_eq!(read("1:2:3pm. x"), date(2026, 3, 5));
    assert_eq!(read("5 may 2020 10:00 'ab\u{e9}'"), date(2020, 5, 5));
    assert_eq!(read("today 10:00:00.5Z .\u{bd}"), date(2026, 3, 5));
    assert_eq!(read("may 5, 2020 8pm 4294967295pm"), date(2020, 5, 5));
    assert_eq!(read("july \u{65e5}\u{672c}"), date(2026, 7, 1));
    assert_eq!(read("5 da\u{79}s"), date(2026, 3, 10));
    for text in ["2 \u{65e5}", "\u{212a}\u{e9}", "caf\u{e9} 5", "99999999 days soon", "3 days 4294967295"] {
        match parse_date_input(Some(text), &now) {
            Err(DailyError::InvalidDate(shown)) => assert_eq!(shown, text),
            other => panic!("{other:?}"),
        }
    }
    for text in ["2 \u{e9}\u{e9}", "\u{212a}a\u{e9}", "next \u{e9}\u{e9}", "10:00:00.\u{bd}", "5 ye\u{e9}"] {
        assert!(!is_plain_english(text, &now), "{text}");
    }
}

#[test]
fn numbers_count_as_far_as_they_can() {
    let now = sample_now();
    let read = |text: &str| parse_date_input(Some(text), &now).unwrap();
    assert!(is_plain_english("may 5, 100000", &now));
    assert_eq!(read("may 5, 100000"), date(100000, 5, 5));
    assert_eq!(read("5 may 262142"), date(262142, 5, 5));
    assert_eq!(read("123456 days"), date(2364, 3, 9));
    assert_eq!(read("100000 days ago"), date(1752, 5, 20));
    assert_eq!(read("may\u{a0}5, 2020"), date(2020, 5, 5));
    assert_eq!(read("2 days\u{2026}"), date(2026, 3, 7));
    for text in [
        "12:30:15.25",
        "10. 30",
        "a.b",
        "2000000000 minutes",
        "may 5, 4000000000",
        "2020-01-01 10:00:00.123456789012345Z",
        "10:00:05.4294967290pm",
        "10am \u{2013} 11am",
        "95500000 days ago",
        "2147483648 hours",
        "2147483640 minutes",
        "may 5, 255000 10:00:00Z",
        "10:00:00+0230",
        "99999999 dec",
        "4294967290:30",
        "262142-12-31 23:00:00Z",
        "10:00:00+7158278",
        "4294967283pm",
    ] {
        assert!(is_plain_english(text, &now), "{text}");
        let _ = parse_date_input(Some(text), &now);
    }
    for text in [
        "2 days 4294967290.0pm",
        "2 days .4294967290pm",
        "4294967290pm",
        "2 days 8589934586:00pm",
        "2147483648 hours ago",
        "95500000 days",
        "97000000 days ago",
        "14000000 weeks ago",
        "178956971 years",
        "2147483647 months",
        "10:00:00.x",
        "10:00:00+4000000000",
        "5 \u{e9}",
    ] {
        assert!(!is_plain_english(text, &now), "{text}");
        assert!(try_parse_date_input(Some(text), &now).is_none(), "{text}");
        match read_date_input(Some(text), &now) {
            Err(DailyError::InvalidDate(shown)) => assert_eq!(shown, text),
            other => panic!("{other:?}"),
        }
    }
}

#[test]
fn days_are_numbered_from_year_one() {
    assert_eq!(day_number(date(1, 1, 1)), 1);
    assert_eq!(day_number(date(2000, 3, 1)), 730180);
    assert_eq!(day_number(date(0, 12, 31)), 0);
    assert_eq!(day_number(date(262142, 12, 31)), 95_745_399);
    assert_eq!(day_number(date(-262143, 1, 1)), -95_746_129);
}

#[test]
fn entry_files_are_named_after_their_dates() {
    assert!(is_daily_entry_path("Daily/2026/03/2026-03-02.md"));
    for path in [
        "Daily/2026/03/2026-03-02.md.md",
        "Daily/2026/03/2026-3-2.md",
        "Daily/2026/03/2026-03-2.md",
        "Daily/2026/03/ 2026-03-02.md",
        "Daily/2026/03/+2026-03-02.md",
        "Daily/2026/03/2026-03-02",
        "Daily/2026/02/2026-02-30.md",
        "Daily/daily_index.md",
        "Daily/2026/2026_index.md",
        "Daily/2026/03/2026_march.md",
    ] {
        assert!(!is_daily_entry_path(path), "{path}");
        assert!(matches!(path_to_date(path), Err(DailyError::NotDailyPath)), "{path}");
    }
    assert!(date_from_filename("x/2026-03-02.md.md").is_err());
    assert!(date_from_filename("x/2026-3-2.md").is_err());
}

#[test]
fn moments_fall_on_local_dates() {
    let east = UtcOffset { seconds: 2 * 3600 };
    assert_eq!(
        parse_rfc3339_date_in_offset("2026-12-31T23:00:00Z", &east).unwrap(),
        date(2027, 1, 1)
    );
    assert_eq!(
        parse_rfc3339_date_in_offset("2026-12-31T23:00:00+02:00", &east).unwrap(),
        date(2026, 12, 31)
    );
    assert!(parse_rfc3339_date_in_offset("2026-12-31", &east).is_none());
    assert!(parse_rfc3339_date_in_offset("soon", &east).is_none());
}

#[test]
fn fills_every_placeholder_in_turn() {
    let rendered = render_template(
        "{{title}}|{{date}}|{{part_of}}|{{timestamp}}|{{title}}|{{other}}",
        "T",
        date(2026, 3, 2),
        "P",
        &sample_now(),
    );
    assert_eq!(rendered, "T|2026-03-02|P|2026-03-05T10:11:12-07:00|T|{{other}}");
    let nested = render_template("{{title}}", "{{date}}", date(2026, 3, 2), "P", &sample_now());
    assert_eq!(nested, "2026-03-02");
    assert_eq!(
        default_entry_template(),
        "---\ntitle: \"{{title}}\"\ndate: {{date}}\ncreated: {{timestamp}}\npart_of: \"{{part_of}}\"\n---\n\n# {{title}}\n\n"
    );
}

#[test]
fn folders_and_names() {
    assert_eq!(normalize_folder(Some("/Journal/Daily//")), "Journal/Daily");
    assert_eq!(normalize_folder(Some("///")), "");
    assert_eq!(normalize_folder(None), "");
    assert_eq!(scoped_path("", "a.md"), "a.md");
    assert_eq!(scoped_path("D", "a.md"), "D/a.md");
    let mut config = DailyPluginConfig::default();
    config.entry_folder = Some("/Journal/".to_string());
    assert_eq!(config.effective_entry_folder(), "Journal");
    config.entry_folder = Some("//".to_string());
    assert_eq!(config.effective_entry_folder(), "Daily");
    assert_eq!(entry_relative_path(date(2026, 3, 2)), "2026/03/2026-03-02.md");
    assert_eq!(year_index_filename(date(2026, 3, 2)), "2026_index.md");
    let months = [
        "january", "february", "march", "april", "may", "june", "july", "august", "september",
        "october", "november", "december",
    ];
    for (i, month) in months.iter().enumerate() {
        assert_eq!(
            month_index_filename(date(2026, i as u32 + 1, 2)),
            format!("2026_{month}.md")
        );
    }
}
