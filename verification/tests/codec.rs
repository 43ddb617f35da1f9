//! The key-file JSON codec: exact rendering and parsing, round trips,
//! escapes, and rejected texts.

use t_cli::json::{json_to_map, map_to_json};
use t_cli::tmap::TranslationMap;

#[test]
fn renders_empty_map() {
    let m = TranslationMap::new();
    assert_eq!(map_to_json(&m), "{}");
}

#[test]
fn renders_strings_and_nulls() {
    let mut m = TranslationMap::new();
    m.insert("key".to_string(), Some("value".to_string()));
    m.insert("todo".to_string(), None);
    assert_eq!(map_to_json(&m), "{\n  \"key\": \"value\",\n  \"todo\": null\n}");
}

#[test]
fn escapes_special_characters() {
    let mut m = TranslationMap::new();
    m.insert("quote\"and\\slash".to_string(), Some("line\nbreak\ttab\u{1}".to_string()));
    assert_eq!(
        map_to_json(&m),
        "{\n  \"quote\\\"and\\\\slash\": \"line\\nbreak\\ttab\\u0001\"\n}"
    );
}

#[test]
fn parses_empty_object() {
    let m = json_to_map(&"  { }  ".to_string()).unwrap();
    assert_eq!(m.len(), 0);
}

#[test]
fn parses_members_with_whitespace() {
    let text = "\n{\t\"a\" : \"A\" ,\r\n \"b\":null}\n".to_string();
    let m = json_to_map(&text).unwrap();
    assert_eq!(m.len(), 2);
    assert_eq!(m.get(&"a".to_string()), Some(Some("A".to_string())));
    assert_eq!(m.get(&"b".to_string()), Some(None));
}

#[test]
fn parses_escapes() {
    let text = "{\"a\\n\\t\\\"\\\\\\/\": \"\\u0041\\u00e9\"}".to_string();
    let m = json_to_map(&text).unwrap();
    assert_eq!(m.get(&"a\n\t\"\\/".to_string()), Some(Some("A\u{e9}".to_string())));
}

#[test]
fn parses_surrogate_pairs() {
    let text = "{\"emoji\": \"\\ud83d\\ude00\"}".to_string();
    let m = json_to_map(&text).unwrap();
    assert_eq!(m.get(&"emoji".to_string()), Some(Some("\u{1f600}".to_string())));
}

#[test]
fn rejects_lone_surrogates() {
    assert!(json_to_map(&"{\"a\": \"\\ud83d\"}".to_string()).is_none());
    assert!(json_to_map(&"{\"a\": \"\\ude00\"}".to_string()).is_none());
}

#[test]
fn duplicate_keys_keep_first_position_and_last_value() {
    let text = "{\"a\": \"one\", \"b\": null, \"a\": \"two\"}".to_string();
    let m = json_to_map(&text).unwrap();
    assert_eq!(m.len(), 2);
    assert_eq!(m.entry_at(0), ("a".to_string(), Some("two".to_string())));
    assert_eq!(m.entry_at(1), ("b".to_string(), None));
}

#[test]
fn rejects_malformed_texts() {
    for text in [
        "",
        "{",
        "}",
        "{\"a\"}",
        "{\"a\": }",
        "{\"a\": 1}",
        "{\"a\": true}",
        "{\"a\": \"x\",}",
        "{\"a\": \"x\"} trailing",
        "{\"a\": [\"x\"]}",
        "{\"a\": \"x\" \"b\": \"y\"}",
        "{\"unterminated",
        "null",
    ] {
        assert!(json_to_map(&text.to_string()).is_none(), "accepted: {}", text);
    }
}

#[test]
fn round_trips_through_bytes() {
    let mut m = TranslationMap::new();
    m.insert("plain".to_string(), Some("value".to_string()));
    m.insert("null key".to_string(), None);
    m.insert("wei\u{df}".to_string(), Some("tricky \"quotes\" \\ and \nnewlines".to_string()));
    let rendered = map_to_json(&m);
    let back = json_to_map(&rendered).unwrap();
    assert_eq!(back.len(), m.len());
    for i in 0..m.len() {
        assert_eq!(back.entry_at(i), m.entry_at(i));
    }
    assert_eq!(map_to_json(&back), rendered);
}

#[test]
fn rejects_raw_control_characters_in_strings() {
    assert!(json_to_map(&"{\"a\": \"x\u{1}y\"}".to_string()).is_none());
}
