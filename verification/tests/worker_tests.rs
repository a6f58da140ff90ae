use symdex::cache::Cache;
use symdex::config::{Config, ConfigRules, FzfSettings, Language};
use symdex::parser::Parser;
use symdex::protocol::DELIMITER;
use symdex::symbol::Kind;
use symdex::text::Loc;
use symdex::worker::{process_file, render_cached, Outcome};

fn rust_function_config() -> Config {
    let rules = ConfigRules {
        languages: vec![(
            Language::Rust,
            vec![(Kind::Function, vec!["(function_item name: (identifier) @name)".to_string()])],
        )],
        fzf_settings: FzfSettings::default(),
    };
    Config::from_rules(rules).expect("the query compiles")
}

// End to end through the grammar engine: a two-line file and a
// configuration with the function query yield exactly the two function
// symbols, with their text and columns, in that order.
#[test]
fn query_strategy_finds_both_functions() {
    let config = rust_function_config();
    let parser = Parser::from_path(&config, "demo.rs").expect("rs is configured");
    let symbols = parser.symbols("fn foo() {}\nfn bar() {}").expect("valid rust");
    assert_eq!(symbols.len(), 2);
    assert_eq!(symbols[0].0, Loc::new(1, 3));
    assert_eq!(symbols[0].1, "foo".to_string());
    assert_eq!(symbols[0].2, Kind::Function);
    assert_eq!(symbols[1].0, Loc::new(2, 3));
    assert_eq!(symbols[1].1, "bar".to_string());
    assert_eq!(symbols[1].2, Kind::Function);
}

#[test]
fn unicode_text_survives_extraction() {
    let config = rust_function_config();
    let parser = Parser::from_path(&config, "demo.rs").unwrap();
    let symbols = parser.symbols("fn f\u{00e9}ta() {}").expect("valid rust");
    assert_eq!(symbols.len(), 1);
    assert_eq!(symbols[0].1, "f\u{00e9}ta".to_string());
}

// The worker's per-path decision, driven as the program drives it: extract
// on a cold cache and record; replay with the same stamp; and re-extract
// after the stamp changed, even though the content is byte-identical.
#[test]
fn process_file_extracts_then_replays() {
    let config = rust_function_config();
    let mut cache = Cache::new();
    let content = "fn foo() {}\nfn bar() {}";

    // First visit: a miss; the file is extracted and its symbols recorded.
    let cached = cache.file_info("demo.rs").cloned();
    assert!(cached.is_none());
    cache.new_file_info("demo.rs".to_string(), 1000);
    let first = process_file(&config, "demo.rs", 1000, &cached, content);
    let (extracted, symbols) = match first {
        Outcome::Extracted(lines, symbols) => (lines, symbols),
        _ => panic!("expected extraction on a cold cache"),
    };
    assert_eq!(extracted.len(), 2);
    assert_eq!(symbols.len(), 2);
    let fields: Vec<&str> = extracted[0].split(DELIMITER).collect();
    assert_eq!(fields[0], "demo.rs");
    assert_eq!(fields[1], "1");
    assert_eq!(fields[2], "3");
    assert_eq!(fields[3], "foo");
    for (loc, text, kind) in symbols {
        assert!(cache.record("demo.rs", loc, text, kind));
    }

    // Same stamp: replayed from the cache, same lines in the same order.
    let cached = cache.file_info("demo.rs").cloned();
    let second = process_file(&config, "demo.rs", 1000, &cached, "");
    match second {
        Outcome::Replayed(lines) => assert_eq!(lines, extracted),
        _ => panic!("expected a replay on a warm cache"),
    }

    // A changed stamp: never served from the cache.
    let third = process_file(&config, "demo.rs", 2000, &cached, content);
    match third {
        Outcome::Extracted(lines, _) => assert_eq!(lines, extracted),
        _ => panic!("expected re-extraction after the stamp changed"),
    }
}

#[test]
fn process_file_skips_unconfigured_language() {
    let config = rust_function_config();
    let outcome = process_file(&config, "notes.txt", 1, &None, "whatever");
    assert!(matches!(outcome, Outcome::Skipped));
    // A known language with no stanza is skipped too.
    let outcome = process_file(&config, "main.py", 1, &None, "def f(): pass");
    assert!(matches!(outcome, Outcome::Skipped));
}

#[test]
fn render_cached_reattaches_path() {
    let mut cache = Cache::new();
    cache.new_file_info("lib.rs".to_string(), 5);
    assert!(cache.record("lib.rs", Loc::new(9, 2), "widget".to_string(), Kind::Struct));
    let info = cache.file_info("lib.rs").unwrap();
    let lines = render_cached("lib.rs", info);
    assert_eq!(lines.len(), 1);
    let fields: Vec<&str> = lines[0].split(DELIMITER).collect();
    assert_eq!(fields[0], "lib.rs");
    assert_eq!(fields[1], "9");
    assert_eq!(fields[2], "2");
    assert_eq!(fields[3], "widget");
    assert_eq!(fields[4], Kind::Struct.colored_abbreviation());
}
