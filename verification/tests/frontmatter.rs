use diaryx_daily::frontmatter::{
    ensure_sequence, is_sequence, parse_markdown, save_sequence, serialize_markdown, text_field,
};
use indexmap::IndexMap;
use serde_yaml::Value;

const TRICKY: [&str; 47] = [
    "", " ", "plain", " lead", "trail ", "true", "no", "null", "~", "123", "0x1F", "0o7", "1e3",
    "-1.5", ".inf", "2026-03-02", "a: b", "a #b", "# x", "- x", "-", "--- ", "---", "...", "'q'",
    "\"d\"", "\\n", "{a}", "[b]", "&a *b", "!t", "%x @y `z`", "<<", "key: |",
    "\u{e9}t\u{e9}", "\u{65e5}\u{672c}: x", "\u{a0}", "tab\there", "\r", "\u{85}", "\u{feff}",
    "\0", "\u{1f600} #x", "\u{7f}", "\u{ffff}", "\u{9f}", "\u{1b}[0m",
];

fn text(s: &str) -> Value {
    Value::String(s.to_string())
}

#[test]
fn plain_fields_are_read_back() {
    let mut map: IndexMap<String, Value> = IndexMap::new();
    for (i, value) in TRICKY.iter().enumerate() {
        map.insert(value.to_string(), text(TRICKY[TRICKY.len() - 1 - i]));
    }
    map.insert("list".to_string(), Value::Sequence(TRICKY.iter().map(|s| text(s)).collect()));
    map.insert("none".to_string(), Value::Sequence(Vec::new()));
    let scalars = vec![
        Value::Null,
        Value::Bool(true),
        Value::Bool(false),
        Value::from(0),
        Value::from(i64::MIN),
        Value::from(-1),
        Value::from(u64::MAX),
        text("0"),
    ];
    for (i, value) in scalars.iter().enumerate() {
        map.insert(format!("scalar {i}"), value.clone());
    }
    map.insert("scalars".to_string(), Value::Sequence(scalars));
    map.insert("x".repeat(2000), text(&"y".repeat(5000)));
    for body in ["", "\n# T\n", "---\n", "\n---\nmore\n", "no end", "\r\n---\r\n"] {
        let content = serialize_markdown(&map, body).unwrap();
        let (back, rest) = parse_markdown(&content).unwrap();
        assert_eq!(rest, body);
        assert_eq!(back, map);
        assert!(back.keys().eq(map.keys()));
    }
    let empty: IndexMap<String, Value> = IndexMap::new();
    let content = serialize_markdown(&empty, "b").unwrap();
    assert_eq!(parse_markdown(&content).unwrap(), (empty, "b".to_string()));
}

#[test]
fn files_without_frontmatter_are_all_body() {
    for content in ["", "text", "--- \nx", "----\n", "-\n---\n"] {
        let (map, body) = parse_markdown(content).unwrap();
        assert!(map.is_empty());
        assert_eq!(body, content);
    }
    let (map, body) = parse_markdown("---\nopen: yes").unwrap();
    assert!(map.is_empty());
    assert_eq!(body, "---\nopen: yes");
    assert!(parse_markdown("---\na: [\n---\n").is_err());
    let (map, _) = parse_markdown("---\na: x\nb: z\na: y\n---\n").unwrap();
    assert_eq!(map.len(), 2);
    assert_eq!(text_field(&map, "a").as_deref(), Some("y"));
}

#[test]
fn fields_are_read_and_set() {
    let (mut map, _) = parse_markdown(
        "---\ntitle: T\nn: 3\ntagged: !x y\nlist:\n- a\n- 1\n- !t b\nother: !x\n- a\n---\n",
    )
    .unwrap();
    assert_eq!(text_field(&map, "title").as_deref(), Some("T"));
    assert_eq!(text_field(&map, "tagged").as_deref(), Some("y"));
    assert_eq!(text_field(&map, "n"), None);
    assert_eq!(text_field(&map, "list"), None);
    assert_eq!(text_field(&map, "missing"), None);
    assert_eq!(ensure_sequence(&map, "list"), vec!["a", "b"]);
    assert!(ensure_sequence(&map, "title").is_empty());
    assert!(ensure_sequence(&map, "other").is_empty());
    assert!(is_sequence(&map, "list"));
    assert!(!is_sequence(&map, "other"));
    save_sequence(&mut map, "n", vec!["x".to_string()]);
    save_sequence(&mut map, "new", Vec::new());
    let keys: Vec<&str> = map.keys().map(|k| k.as_str()).collect();
    assert_eq!(keys, vec!["title", "n", "tagged", "list", "other", "new"]);
    assert_eq!(ensure_sequence(&map, "n"), vec!["x"]);
}
