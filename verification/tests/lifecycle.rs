//! The collect/clean lifecycle on concrete workspaces.

use t_cli::clean::{clean_file_content, clean_map, CleanOutcome, KeySet};
use t_cli::collect::{
    build_fresh_map, collect_file_output, distinct_dirs, keys_for_output_dir, CallEvent, DirScan,
    FnKeyCollector,
};
use t_cli::json::{json_to_map, map_to_json};
use t_cli::tmap::TranslationMap;

fn call(callee: &str, arg: Option<&str>) -> CallEvent {
    CallEvent {
        callee: Some(callee.to_string()),
        first_arg_str: arg.map(|s| s.to_string()),
    }
}

fn scan_keys(events: Vec<CallEvent>) -> Vec<String> {
    let mut collector = FnKeyCollector::new(vec!["t".to_string()]);
    collector.visit_events(&events);
    collector.keys
}

#[test]
fn scanner_collects_marker_calls_in_order() {
    let events = vec![
        call("t", Some("greeting")),
        call("other", Some("skipped")),
        call("t", None),
        CallEvent { callee: None, first_arg_str: Some("no callee".to_string()) },
        call("t", Some("farewell")),
    ];
    let keys = scan_keys(events);
    assert_eq!(keys, vec!["greeting".to_string(), "farewell".to_string()]);
}

#[test]
fn fresh_map_default_language_self_fills() {
    let keys = vec!["a".to_string(), "b".to_string(), "a".to_string()];
    let m = build_fresh_map(&keys, true);
    assert_eq!(m.len(), 2);
    assert_eq!(m.entry_at(0), ("a".to_string(), Some("a".to_string())));
    assert_eq!(m.entry_at(1), ("b".to_string(), Some("b".to_string())));
}

#[test]
fn fresh_map_other_language_gets_placeholders() {
    let keys = vec!["a".to_string(), "b".to_string()];
    let m = build_fresh_map(&keys, false);
    assert_eq!(m.entry_at(0), ("a".to_string(), None));
    assert_eq!(m.entry_at(1), ("b".to_string(), None));
}

#[test]
fn collect_scenario_first_run() {
    // one file calling t("greeting") and t("farewell"); no files on disk
    let keys = scan_keys(vec![call("t", Some("greeting")), call("t", Some("farewell"))]);
    let en = build_fresh_map(&keys, true);
    let fr = build_fresh_map(&keys, false);
    let (en_json, write_en) = collect_file_output(&en, None);
    let (fr_json, write_fr) = collect_file_output(&fr, None);
    assert!(write_en);
    assert!(write_fr);
    assert_eq!(en_json, "{\n  \"greeting\": \"greeting\",\n  \"farewell\": \"farewell\"\n}");
    assert_eq!(fr_json, "{\n  \"greeting\": null,\n  \"farewell\": null\n}");
}

#[test]
fn collect_is_idempotent_on_bytes() {
    let keys = scan_keys(vec![call("t", Some("greeting")), call("t", Some("farewell"))]);
    let en = build_fresh_map(&keys, true);
    let (first, _) = collect_file_output(&en, None);
    let (second, write_needed) = collect_file_output(&en, Some(&first));
    assert_eq!(first, second);
    assert!(!write_needed);
}

#[test]
fn collect_never_destroys_translations() {
    // the old file holds a human translation; a new scan keeps it
    let old = "{\n  \"greeting\": \"Bonjour\",\n  \"farewell\": null\n}".to_string();
    let keys = vec!["greeting".to_string(), "farewell".to_string(), "extra".to_string()];
    let fr = build_fresh_map(&keys, false);
    let (json, _) = collect_file_output(&fr, Some(&old));
    let merged = json_to_map(&json).unwrap();
    assert_eq!(merged.get(&"greeting".to_string()), Some(Some("Bonjour".to_string())));
    assert_eq!(merged.get(&"farewell".to_string()), Some(None));
    assert_eq!(merged.get(&"extra".to_string()), Some(None));
}

#[test]
fn collect_appends_vanished_keys_at_the_end() {
    let old = "{\n  \"gone\": \"kept value\"\n}".to_string();
    let keys = vec!["new".to_string()];
    let fresh = build_fresh_map(&keys, false);
    let (json, _) = collect_file_output(&fresh, Some(&old));
    assert_eq!(json, "{\n  \"new\": null,\n  \"gone\": \"kept value\"\n}");
}

#[test]
fn collect_treats_invalid_old_file_as_absent() {
    let old = "not json at all".to_string();
    let fresh = build_fresh_map(&vec!["k".to_string()], true);
    let (json, write_needed) = collect_file_output(&fresh, Some(&old));
    assert_eq!(json, "{\n  \"k\": \"k\"\n}");
    assert!(write_needed);
}

#[test]
fn clean_scenario() {
    // after the translator edits fr and the farewell call is deleted
    let mut used = KeySet::new();
    used.insert("greeting".to_string());
    let fr = "{\n  \"greeting\": \"Bonjour\",\n  \"farewell\": null\n}".to_string();
    match clean_file_content(&fr, &used, false) {
        CleanOutcome::Changed { json, removed, filled } => {
            assert_eq!(json, "{\n  \"greeting\": \"Bonjour\"\n}");
            assert_eq!(removed, 1);
            assert_eq!(filled, 0);
        },
        _ => panic!("fr must change"),
    }
    let en = "{\n  \"greeting\": \"greeting\",\n  \"farewell\": \"farewell\"\n}".to_string();
    match clean_file_content(&en, &used, true) {
        CleanOutcome::Changed { json, removed, filled } => {
            assert_eq!(json, "{\n  \"greeting\": \"greeting\"\n}");
            assert_eq!(removed, 1);
            assert_eq!(filled, 0);
        },
        _ => panic!("en must change"),
    }
}

#[test]
fn clean_preserves_order_of_survivors() {
    let mut used = KeySet::new();
    used.insert("a".to_string());
    used.insert("c".to_string());
    let old = "{\n  \"a\": null,\n  \"b\": null,\n  \"c\": \"C\"\n}".to_string();
    let m = json_to_map(&old).unwrap();
    let (cleaned, _) = clean_map(&m, &used, false);
    assert_eq!(cleaned.len(), 2);
    assert_eq!(cleaned.entry_at(0).0, "a".to_string());
    assert_eq!(cleaned.entry_at(1).0, "c".to_string());
}

#[test]
fn clean_fills_default_nulls_with_the_key() {
    let mut used = KeySet::new();
    used.insert("a".to_string());
    let old = "{\n  \"a\": null\n}".to_string();
    match clean_file_content(&old, &used, true) {
        CleanOutcome::Changed { json, removed, filled } => {
            assert_eq!(json, "{\n  \"a\": \"a\"\n}");
            assert_eq!(removed, 0);
            assert_eq!(filled, 1);
        },
        _ => panic!("the null must be filled"),
    }
}

#[test]
fn clean_leaves_untouched_files_alone() {
    let mut used = KeySet::new();
    used.insert("a".to_string());
    let old = "{\n  \"a\": \"A\"\n}".to_string();
    assert!(matches!(clean_file_content(&old, &used, true), CleanOutcome::Unchanged));
}

#[test]
fn clean_skips_invalid_json() {
    let used = KeySet::new();
    let old = "{broken".to_string();
    assert!(matches!(clean_file_content(&old, &used, false), CleanOutcome::InvalidJson));
}

#[test]
fn used_keys_are_scoped_per_output_directory() {
    let scans = vec![
        DirScan { output_dir: "app/_t".to_string(), keys: vec!["a".to_string()] },
        DirScan { output_dir: "lib/_t".to_string(), keys: vec!["b".to_string()] },
        DirScan { output_dir: "app/_t".to_string(), keys: vec!["c".to_string()] },
    ];
    let dirs = distinct_dirs(&scans);
    assert_eq!(dirs, vec!["app/_t".to_string(), "lib/_t".to_string()]);
    let app_keys = keys_for_output_dir(&scans, &"app/_t".to_string());
    assert_eq!(app_keys, vec!["a".to_string(), "c".to_string()]);
    let lib_keys = keys_for_output_dir(&scans, &"lib/_t".to_string());
    assert_eq!(lib_keys, vec!["b".to_string()]);
}

#[test]
fn paths_sort_case_insensitively() {
    let paths = vec![
        "src/B.ts".to_string(),
        "src/a.ts".to_string(),
        "SRC2/c.ts".to_string(),
    ];
    let sorted = t_cli::scan_order::sort_paths(&paths);
    assert_eq!(
        sorted,
        vec!["src/a.ts".to_string(), "src/B.ts".to_string(), "SRC2/c.ts".to_string()]
    );
}

#[test]
fn translation_map_insert_keeps_position() {
    let mut m = TranslationMap::new();
    m.insert("a".to_string(), None);
    m.insert("b".to_string(), None);
    m.insert("a".to_string(), Some("A".to_string()));
    assert_eq!(m.len(), 2);
    assert_eq!(m.entry_at(0), ("a".to_string(), Some("A".to_string())));
    assert_eq!(m.entry_at(1), ("b".to_string(), None));
    assert!(m.contains_key(&"b".to_string()));
    assert!(!m.contains_key(&"c".to_string()));
    let _ = map_to_json(&m);
}
