use std::path::Path;

use diaryx_daily::paths::{file_name, is_rooted, join, parent, strip_prefix};
use diaryx_daily::text::{
    contains, ends_with, replace, replace_char, split_segments, starts_with, to_ascii_lowercase,
    trim, trim_slashes, trim_start, trim_start_matches, write_numeral, write_padded, write_signed,
};

/// All texts over a few characters up to a length.
fn samples(longest: usize) -> Vec<String> {
    let mut all = vec![String::new()];
    let mut last = vec![String::new()];
    for _ in 0..longest {
        let mut next = Vec::new();
        for text in &last {
            for c in ['/', '.', 'a'] {
                let mut longer = text.clone();
                longer.push(c);
                next.push(longer);
            }
        }
        all.extend(next.iter().cloned());
        last = next;
    }
    all
}

#[test]
fn parents_and_names_are_those_of_the_platform() {
    for text in samples(7) {
        let path = Path::new(&text);
        assert_eq!(parent(&text).as_deref(), path.parent().map(|p| p.to_str().unwrap()), "{text}");
        assert_eq!(
            file_name(&text).as_deref(),
            path.file_name().map(|p| p.to_str().unwrap()),
            "{text}"
        );
        assert_eq!(is_rooted(&text), path.is_absolute());
    }
}

#[test]
fn joins_are_those_of_the_platform() {
    let texts = samples(3);
    for a in &texts {
        for b in &texts {
            assert_eq!(join(a, b), Path::new(a).join(b).to_str().unwrap());
        }
    }
}

#[test]
fn prefixes_are_those_of_the_platform() {
    let texts = samples(4);
    for a in &texts {
        for b in &texts {
            let (path, base) = (format!("/{a}"), format!("/{b}"));
            assert_eq!(
                strip_prefix(&path, &base).as_deref(),
                Path::new(&path).strip_prefix(&base).ok().map(|p| p.to_str().unwrap()),
                "{path} {base}"
            );
        }
    }
}

#[test]
fn texts_are_cut_as_usual() {
    for text in ["", " a ", "\t\u{a0}x y\u{2003}\n", "   ", "\u{1f600} "] {
        assert_eq!(trim(text), text.trim());
        assert_eq!(trim_start(text), text.trim_start());
    }
    for text in samples(5) {
        assert_eq!(trim_slashes(&text), text.trim_matches('/'));
        assert_eq!(trim_start_matches(&text, "./"), text.trim_start_matches("./"));
        assert_eq!(replace(&text, "./", "-"), text.replace("./", "-"));
        assert_eq!(replace_char(&text, '.', 'x'), text.replace('.', "x"));
        assert_eq!(contains(&text, "a/."), text.contains("a/."));
        assert_eq!(starts_with(&text, "/a"), text.starts_with("/a"));
        assert_eq!(ends_with(&text, "a."), text.ends_with("a."));
        let parts: Vec<&str> = text.split('/').filter(|p| !p.is_empty()).collect();
        assert_eq!(split_segments(&text), parts);
    }
    assert_eq!(to_ascii_lowercase("ABC xyz \u{c9}"), "ABC xyz \u{c9}".to_ascii_lowercase());
}

#[test]
fn numbers_are_written_as_usual() {
    for n in [0u64, 1, 9, 10, 15, 16, 255, 4096, 1234567890, u64::MAX] {
        assert_eq!(write_numeral(n, 10), format!("{n}"));
        assert_eq!(write_numeral(n, 16), format!("{n:x}"));
        assert_eq!(write_padded(n, 2), format!("{n:02}"));
    }
    for n in [0, 7, -1, 2026, i32::MIN, i32::MAX] {
        assert_eq!(write_signed(n), format!("{n}"));
    }
}
