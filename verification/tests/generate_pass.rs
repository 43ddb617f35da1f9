//! The generate pass: pre-order walking, inheritance resolution, and
//! the rendered artifact.

use t_cli::config::LanguageNode;
use t_cli::json::json_to_map;
use t_cli::tgen::{build_dictionaries, render_artifact, resolve_language, walk_language_tree};
use t_cli::cli::{passes_of, Commands, Pass};
use t_cli::is_target_file::is_target_file;

fn lang(name: &str, children: Vec<LanguageNode>) -> LanguageNode {
    LanguageNode { name: name.to_string(), children }
}

#[test]
fn walk_yields_language_parent_pairs_in_preorder() {
    let tree = lang("en", vec![lang("fr", vec![lang("fr-CA", vec![])]), lang("de", vec![])]);
    let mut list: Vec<(String, Option<String>)> = Vec::new();
    walk_language_tree(&tree, None, &mut list);
    assert_eq!(
        list,
        vec![
            ("en".to_string(), None),
            ("fr".to_string(), Some("en".to_string())),
            ("fr-CA".to_string(), Some("fr".to_string())),
            ("de".to_string(), Some("en".to_string())),
        ]
    );
}

#[test]
fn inheritance_fallback() {
    // root `en` with {a:"A"}; child `fr` with {a:null, b:"B"}
    let en_file = json_to_map(&"{\"a\": \"A\"}".to_string()).unwrap();
    let fr_file = json_to_map(&"{\"a\": null, \"b\": \"B\"}".to_string()).unwrap();
    let en = resolve_language(None, Some(&en_file));
    let fr = resolve_language(Some(&en), Some(&fr_file));
    assert_eq!(fr.get(&"a".to_string()), Some(&"A".to_string()));
    assert_eq!(fr.get(&"b".to_string()), Some(&"B".to_string()));
    assert_eq!(fr.len(), 2);
}

#[test]
fn build_dictionaries_resolves_the_whole_tree() {
    let tree = lang("en", vec![lang("fr", vec![])]);
    let mut pairs: Vec<(String, Option<String>)> = Vec::new();
    walk_language_tree(&tree, None, &mut pairs);
    let contents = vec![
        Some("{\"a\": \"A\"}".to_string()),
        Some("{\"a\": null, \"b\": \"B\"}".to_string()),
    ];
    let dicts = build_dictionaries(&pairs, &contents).unwrap();
    assert_eq!(dicts.len(), 2);
    let en = dicts.get(&"en".to_string()).unwrap();
    assert_eq!(en.get(&"a".to_string()), Some(&"A".to_string()));
    let fr = dicts.get(&"fr".to_string()).unwrap();
    assert_eq!(fr.get(&"a".to_string()), Some(&"A".to_string()));
    assert_eq!(fr.get(&"b".to_string()), Some(&"B".to_string()));
}

#[test]
fn build_dictionaries_skips_missing_files() {
    let tree = lang("en", vec![lang("fr", vec![])]);
    let mut pairs: Vec<(String, Option<String>)> = Vec::new();
    walk_language_tree(&tree, None, &mut pairs);
    let contents = vec![Some("{\"a\": \"A\"}".to_string()), None];
    let dicts = build_dictionaries(&pairs, &contents).unwrap();
    // fr inherits everything from en
    let fr = dicts.get(&"fr".to_string()).unwrap();
    assert_eq!(fr.get(&"a".to_string()), Some(&"A".to_string()));
}

#[test]
fn build_dictionaries_fails_on_invalid_json() {
    let tree = lang("en", vec![]);
    let mut pairs: Vec<(String, Option<String>)> = Vec::new();
    walk_language_tree(&tree, None, &mut pairs);
    let contents = vec![Some("{broken".to_string())];
    assert!(build_dictionaries(&pairs, &contents).is_err());
}

#[test]
fn artifact_text_is_exact() {
    let tree = lang("en", vec![lang("fr", vec![])]);
    let mut pairs: Vec<(String, Option<String>)> = Vec::new();
    walk_language_tree(&tree, None, &mut pairs);
    let contents = vec![
        Some("{\"a\": \"A\"}".to_string()),
        Some("{\"a\": null, \"b\": \"B\"}".to_string()),
    ];
    let dicts = build_dictionaries(&pairs, &contents).unwrap();
    let text = render_artifact(&"_t".to_string(), &dicts);
    let expected = "export const _t = {\n  \"en\": {\n    \"a\": \"A\"\n  },\n  \"fr\": {\n    \"a\": \"A\",\n    \"b\": \"B\"\n  }\n} as const;\n\nexport type Dict = typeof _t[keyof typeof _t];\n";
    assert_eq!(text, expected.to_string());
}

#[test]
fn empty_dictionary_renders_inline() {
    let tree = lang("en", vec![]);
    let mut pairs: Vec<(String, Option<String>)> = Vec::new();
    walk_language_tree(&tree, None, &mut pairs);
    let contents = vec![None];
    let dicts = build_dictionaries(&pairs, &contents).unwrap();
    let text = render_artifact(&"_t".to_string(), &dicts);
    assert_eq!(
        text,
        "export const _t = {\n  \"en\": {}\n} as const;\n\nexport type Dict = typeof _t[keyof typeof _t];\n"
            .to_string()
    );
}

#[test]
fn composite_commands_expand_to_their_passes() {
    let gc = Commands::Gc { config: "t.config.ts".to_string(), verbose: false };
    assert_eq!(passes_of(&gc), vec![Pass::Collect, Pass::Generate, Pass::Clean]);
    let cg = Commands::Cg { config: "t.config.ts".to_string(), verbose: false };
    assert_eq!(passes_of(&cg), vec![Pass::Collect, Pass::Generate]);
    let init = Commands::Init { output: "t.config.ts".to_string(), force: true };
    assert_eq!(passes_of(&init), Vec::<Pass>::new());
}

#[test]
fn source_files_are_recognized_by_extension() {
    assert!(is_target_file(&"a/b/c.ts".to_string()));
    assert!(is_target_file(&"x.tsx".to_string()));
    assert!(is_target_file(&"d/e.js".to_string()));
    assert!(is_target_file(&"f.jsx".to_string()));
    assert!(!is_target_file(&"readme.md".to_string()));
    assert!(!is_target_file(&"noext".to_string()));
    assert!(!is_target_file(&"dir.ts/file".to_string()));
    assert!(!is_target_file(&".ts".to_string()));
    assert!(!is_target_file(&"upper.TS".to_string()));
    assert!(!is_target_file(&"trailingdot.".to_string()));
}
