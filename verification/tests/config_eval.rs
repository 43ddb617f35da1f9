//! The static configuration evaluator and the typed decoder.

use t_cli::config::{config_from_script_items, Config, Declarator, LanguageNode, ScriptItem, Target};
use t_cli::error::Error;
use t_cli::expr_to_value::{expr_to_value, ConfigExpr, ObjectProp, PropKey, Value};

fn s(text: &str) -> ConfigExpr {
    ConfigExpr::Str(text.to_string())
}

fn kv(key: &str, value: ConfigExpr) -> ObjectProp {
    ObjectProp::KeyValue(PropKey::Ident(key.to_string()), value)
}

fn obj(props: Vec<ObjectProp>) -> ConfigExpr {
    ConfigExpr::Object(props)
}

fn arr(items: Vec<ConfigExpr>) -> ConfigExpr {
    ConfigExpr::Array(items.into_iter().map(Some).collect())
}

/// `{ languages: { name: "en", children: [{ name: "fr" }] },
///    targets: [{ includes: ["src"], excludes: [] }] }`
fn sample_config_expr() -> ConfigExpr {
    obj(vec![
        kv(
            "languages",
            obj(vec![
                kv("name", s("en")),
                kv("children", arr(vec![obj(vec![kv("name", s("fr"))])])),
            ]),
        ),
        kv(
            "targets",
            arr(vec![obj(vec![kv("includes", arr(vec![s("src")])), kv("excludes", arr(vec![]))])]),
        ),
    ])
}

#[test]
fn evaluates_literals_and_wrappers() {
    let e = ConfigExpr::Satisfies(Box::new(ConfigExpr::ConstAssertion(Box::new(s("x")))));
    match expr_to_value(&e) {
        Ok(Value::Str(v)) => assert_eq!(v, "x".to_string()),
        _ => panic!("expected a string value"),
    }
}

#[test]
fn evaluates_objects_arrays_and_skips_holes() {
    let e = ConfigExpr::Array(vec![Some(s("a")), None, Some(s("b"))]);
    match expr_to_value(&e) {
        Ok(Value::Array(items)) => assert_eq!(items.len(), 2),
        _ => panic!("expected an array value"),
    }
}

#[test]
fn object_keys_may_be_strings_and_later_values_win() {
    let e = obj(vec![
        ObjectProp::KeyValue(PropKey::Str("k".to_string()), s("one")),
        ObjectProp::Other,
        ObjectProp::KeyValue(PropKey::Str("k".to_string()), s("two")),
    ]);
    match expr_to_value(&e) {
        Ok(Value::Object(fields)) => {
            assert_eq!(fields.len(), 1);
            assert_eq!(fields[0].0, "k".to_string());
            match &fields[0].1 {
                Value::Str(v) => assert_eq!(v, &"two".to_string()),
                _ => panic!("expected a string"),
            }
        },
        _ => panic!("expected an object value"),
    }
}

#[test]
fn rejects_unsupported_expressions() {
    let e = obj(vec![kv("k", ConfigExpr::Unsupported("a call expression".to_string()))]);
    match expr_to_value(&e) {
        Err(Error::UnsupportedExpression { description }) => {
            assert_eq!(description, "a call expression".to_string());
        },
        _ => panic!("expected an unsupported-expression error"),
    }
}

#[test]
fn rejects_invalid_object_keys() {
    let e = obj(vec![ObjectProp::KeyValue(
        PropKey::Unsupported("a computed key".to_string()),
        s("x"),
    )]);
    assert!(matches!(expr_to_value(&e), Err(Error::InvalidKey { .. })));
}

#[test]
fn loads_config_from_direct_export() {
    let items = vec![ScriptItem::ExportDefault(sample_config_expr())];
    let config = config_from_script_items(&items).unwrap();
    assert_eq!(config.languages.name, "en".to_string());
    assert_eq!(config.languages.children.len(), 1);
    assert_eq!(config.languages.children[0].name, "fr".to_string());
    assert_eq!(config.targets.len(), 1);
    assert_eq!(config.targets[0].includes, vec!["src".to_string()]);
    assert!(config.targets[0].excludes.is_empty());
    // omitted fields fall back to their defaults
    assert_eq!(config.targets[0].output, "_t".to_string());
    assert_eq!(config.targets[0].fn_names, vec!["t".to_string()]);
}

#[test]
fn loads_config_through_one_alias_hop() {
    let items = vec![
        ScriptItem::VarDecl(vec![Declarator {
            name: Some("config".to_string()),
            init: Some(sample_config_expr()),
        }]),
        ScriptItem::ExportDefault(ConfigExpr::Ident("config".to_string())),
    ];
    let config = config_from_script_items(&items).unwrap();
    assert_eq!(config.languages.name, "en".to_string());
}

#[test]
fn later_declarations_shadow_earlier_ones() {
    let make = |lang: &str| obj(vec![kv("languages", obj(vec![kv("name", s(lang))]))]);
    let items = vec![
        ScriptItem::VarDecl(vec![Declarator {
            name: Some("c".to_string()),
            init: Some(make("first")),
        }]),
        ScriptItem::ExportDefault(ConfigExpr::Ident("c".to_string())),
        ScriptItem::VarDecl(vec![Declarator {
            name: Some("c".to_string()),
            init: Some(make("second")),
        }]),
    ];
    let config = config_from_script_items(&items).unwrap();
    assert_eq!(config.languages.name, "second".to_string());
}

#[test]
fn missing_identifier_is_an_error() {
    let items = vec![ScriptItem::ExportDefault(ConfigExpr::Ident("missing".to_string()))];
    match config_from_script_items(&items) {
        Err(Error::MissingIdentifier { name }) => assert_eq!(name, "missing".to_string()),
        _ => panic!("expected a missing-identifier error"),
    }
}

#[test]
fn missing_export_is_an_error() {
    let items = vec![ScriptItem::Other];
    assert!(matches!(config_from_script_items(&items), Err(Error::NoExportedExpression)));
}

#[test]
fn missing_languages_field_is_a_decode_error() {
    let items = vec![ScriptItem::ExportDefault(obj(vec![]))];
    assert!(matches!(config_from_script_items(&items), Err(Error::Decode { .. })));
}

#[test]
fn missing_targets_fall_back_to_the_default_target() {
    let items = vec![ScriptItem::ExportDefault(obj(vec![kv(
        "languages",
        obj(vec![kv("name", s("en"))]),
    )]))];
    let config = config_from_script_items(&items).unwrap();
    assert_eq!(config.targets.len(), 1);
    assert_eq!(config.targets[0].includes, vec!["src".to_string()]);
    assert_eq!(config.targets[0].excludes, vec!["node_modules".to_string(), ".*".to_string()]);
    assert_eq!(config.targets[0].output, "_t".to_string());
    assert_eq!(config.targets[0].fn_names, vec!["t".to_string()]);
}

#[test]
fn default_config_matches_the_documented_shape() {
    let config = Config::default();
    assert_eq!(config.languages.name, "en".to_string());
    assert!(config.languages.children.is_empty());
    assert_eq!(config.targets.len(), 1);
    assert_eq!(config.targets[0].output, "_t".to_string());
}

#[test]
fn collect_languages_walks_in_preorder() {
    let tree = LanguageNode {
        name: "en".to_string(),
        children: vec![
            LanguageNode {
                name: "fr".to_string(),
                children: vec![LanguageNode { name: "fr-CA".to_string(), children: vec![] }],
            },
            LanguageNode { name: "de".to_string(), children: vec![] },
        ],
    };
    assert_eq!(
        tree.collect_languages(),
        vec!["en".to_string(), "fr".to_string(), "fr-CA".to_string(), "de".to_string()]
    );
}

#[test]
fn target_lists_decode_elementwise() {
    let bad = obj(vec![
        kv("languages", obj(vec![kv("name", s("en"))])),
        kv("targets", arr(vec![obj(vec![kv("includes", s("not an array"))])])),
    ]);
    let items = vec![ScriptItem::ExportDefault(bad)];
    assert!(matches!(config_from_script_items(&items), Err(Error::Decode { .. })));
    let _ = Target {
        includes: vec![],
        excludes: vec![],
        output: "_t".to_string(),
        fn_names: vec![],
    };
}
