use symdex::classify::{classify, Classifier};
use symdex::config::{Config, ConfigRules, FzfSettings, Language, OneOrMany};
use symdex::parser::{path_extension, Parser};
use symdex::symbol::Kind;

#[test]
fn classifier_takes_second_to_last_component() {
    assert_eq!(classify("entity.name.function.rust"), Kind::Function);
    assert_eq!(classify("entity.name.class.python"), Kind::Class);
    assert_eq!(classify("meta.interface.ts"), Kind::Interface);
    assert_eq!(classify("storage.type.struct.rust"), Kind::Struct);
}

#[test]
fn classifier_falls_back_to_unknown() {
    // Fewer than two dot-separated components.
    assert_eq!(classify("function"), Kind::Unknown);
    assert_eq!(classify(""), Kind::Unknown);
    // A component outside the lexicon.
    assert_eq!(classify("meta.unheard.of"), Kind::Unknown);
}

#[test]
fn classifier_memo_serves_repeats() {
    let mut c = Classifier::new();
    assert_eq!(c.classify("entity.name.trait.rust"), Kind::Trait);
    assert_eq!(c.classify("entity.name.trait.rust"), Kind::Trait);
    assert_eq!(c.classify("meta.module.go"), Kind::Module);
    assert_eq!(c.classify("entity.name.trait.rust"), Kind::Trait);
}

#[test]
fn language_extensions_lists() {
    assert_eq!(Language::C.extensions(), vec!["c", "h"]);
    assert_eq!(Language::Go.extensions(), vec!["go"]);
    assert_eq!(Language::Haskell.extensions(), vec!["hs"]);
    assert_eq!(Language::Python.extensions(), vec!["py"]);
    assert_eq!(Language::Rust.extensions(), vec!["rs"]);
    assert_eq!(Language::TypeScript.extensions(), vec!["js", "jsx", "ts", "tsx"]);
}

#[test]
fn language_from_extension_covers_all() {
    assert_eq!(Language::from_extension("c"), Some(Language::C));
    assert_eq!(Language::from_extension("h"), Some(Language::C));
    assert_eq!(Language::from_extension("go"), Some(Language::Go));
    assert_eq!(Language::from_extension("hs"), Some(Language::Haskell));
    assert_eq!(Language::from_extension("py"), Some(Language::Python));
    assert_eq!(Language::from_extension("rs"), Some(Language::Rust));
    assert_eq!(Language::from_extension("tsx"), Some(Language::TypeScript));
    assert_eq!(Language::from_extension("txt"), None);
    assert_eq!(Language::from_extension(""), None);
}

#[test]
fn config_extensions_flatten_in_order() {
    let rules = ConfigRules {
        languages: vec![
            (Language::Rust, vec![]),
            (Language::C, vec![]),
        ],
        fzf_settings: FzfSettings::default(),
    };
    let config = Config::from_rules(rules).unwrap();
    assert_eq!(config.extensions(), vec!["rs", "c", "h"]);
}

#[test]
fn from_rules_compiles_queries() {
    let rules = ConfigRules {
        languages: vec![(
            Language::Rust,
            vec![(Kind::Function, vec!["(function_item name: (identifier) @name)".to_string()])],
        )],
        fzf_settings: FzfSettings::default(),
    };
    let config = Config::from_rules(rules).unwrap();
    assert_eq!(config.languages.len(), 1);
    assert_eq!(config.languages[0].1.symbol_queries.len(), 1);
    assert_eq!(config.languages[0].1.symbol_queries[0].0, Kind::Function);
    assert_eq!(
        config.languages[0].1.symbol_queries[0].1,
        vec!["(function_item name: (identifier) @name)".to_string()]
    );
}

#[test]
fn from_rules_refuses_malformed_query() {
    let rules = ConfigRules {
        languages: vec![(
            Language::Rust,
            vec![(Kind::Function, vec!["(((".to_string()])],
        )],
        fzf_settings: FzfSettings::default(),
    };
    assert!(Config::from_rules(rules).is_none());
}

#[test]
fn fzf_settings_default_preview() {
    assert_eq!(FzfSettings::default().preview_window, "70%".to_string());
    assert_eq!(FzfSettings::default_preview_window(), "70%".to_string());
}

#[test]
fn one_or_many_becomes_vec() {
    let one: Vec<u32> = OneOrMany::One(5).into_vec();
    assert_eq!(one, vec![5]);
    let many: Vec<u32> = Vec::from(OneOrMany::Many(vec![1, 2, 3]));
    assert_eq!(many, vec![1, 2, 3]);
}

#[test]
fn path_extension_cases() {
    assert_eq!(path_extension("src/main.rs"), Some("rs".to_string()));
    assert_eq!(path_extension("a.tar.gz"), Some("gz".to_string()));
    assert_eq!(path_extension("Makefile"), None);
    assert_eq!(path_extension("dir.d/Makefile"), None);
    assert_eq!(path_extension(".hidden"), None);
    assert_eq!(path_extension("dir/.hidden"), None);
}

#[test]
fn parser_selection_by_extension() {
    let rules = ConfigRules {
        languages: vec![(
            Language::Rust,
            vec![(Kind::Function, vec!["(function_item name: (identifier) @name)".to_string()])],
        )],
        fzf_settings: FzfSettings::default(),
    };
    let config = Config::from_rules(rules).unwrap();
    assert!(Parser::from_path(&config, "src/lib.rs").is_some());
    // A known language that is not configured is skipped.
    assert!(Parser::from_path(&config, "main.py").is_none());
    // An unknown extension is skipped.
    assert!(Parser::from_path(&config, "notes.txt").is_none());
}

// The built-in stanzas' query shapes compile against their grammars.
#[test]
fn builtin_query_shapes_compile() {
    let cases: Vec<(Language, &str)> = vec![
        (Language::Rust, "(struct_item name: (type_identifier) @name)"),
        (Language::Go, "(function_declaration name: (identifier) @name)"),
        (Language::Python, "(class_definition name: (identifier) @name)"),
        (Language::C, "(struct_specifier name: (type_identifier) @name)"),
        (Language::Haskell, "(function name: (variable) @name)"),
        (Language::Haskell, "(data_type name: (name) @name)"),
        (Language::Haskell, "(newtype name: (name) @name)"),
        (Language::Haskell, "(class name: (name) @name)"),
        (Language::TypeScript, "(class_declaration name: (type_identifier) @name)"),
        (Language::TypeScript, "(interface_declaration name: (type_identifier) @name)"),
    ];
    for (language, source) in cases {
        let rules = ConfigRules {
            languages: vec![(language, vec![(Kind::Unknown, vec![source.to_string()])])],
            fzf_settings: FzfSettings::default(),
        };
        assert!(Config::from_rules(rules).is_some(), "{source} must compile");
    }
}
