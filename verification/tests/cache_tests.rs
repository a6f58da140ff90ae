use parking_lot::RwLock;

use symdex::cache::{Cache, FileInfo};
use symdex::symbol::Kind;
use symdex::text::Loc;
use symdex::worker::use_cached;

fn record_n(m: &mut Cache, path: &str, n: usize) {
    for i in 0..n {
        let ok = m.record(
            path,
            Loc::new(i + 1, 2 * i),
            format!("sym{i}"),
            if i % 2 == 0 { Kind::Function } else { Kind::Struct },
        );
        assert!(ok);
    }
}

// Begin, record N entries, persist, reload: the reloaded cache holds the
// same modification stamp and the same N entries in the same order.
#[test]
fn cache_round_trip() {
    let mut m = Cache::new();
    m.new_file_info("src/lib.rs".to_string(), 1234567);
    record_n(&mut m, "src/lib.rs", 5);
    let text = m.to_text();
    let reloaded = Cache::from_text(text.as_str()).expect("well-formed cache text");
    let info = reloaded.file_info("src/lib.rs").expect("path present");
    assert_eq!(info.modified, 1234567);
    assert_eq!(info.entries.len(), 5);
    for i in 0..5 {
        assert_eq!(info.entries[i].loc, Loc::new(i + 1, 2 * i));
        assert_eq!(info.entries[i].text, format!("sym{i}"));
        let expected = if i % 2 == 0 { Kind::Function } else { Kind::Struct };
        assert_eq!(info.entries[i].kind, expected);
    }
}

#[test]
fn cache_round_trip_empty_and_multi() {
    let m = Cache::new();
    let text = m.to_text();
    assert_eq!(text, String::new());
    let reloaded = Cache::from_text("").expect("empty text is an empty cache");
    assert!(reloaded.file_info("anything").is_none());

    let mut m = Cache::new();
    m.new_file_info("a.rs".to_string(), 1);
    m.new_file_info("b.rs".to_string(), 2);
    record_n(&mut m, "b.rs", 1);
    let text = m.to_text();
    let reloaded = Cache::from_text(text.as_str()).unwrap();
    assert_eq!(reloaded.file_info("a.rs").unwrap().modified, 1);
    assert_eq!(reloaded.file_info("a.rs").unwrap().entries.len(), 0);
    assert_eq!(reloaded.file_info("b.rs").unwrap().modified, 2);
    assert_eq!(reloaded.file_info("b.rs").unwrap().entries.len(), 1);
}

// A recorded text or path may hold the codec's own separators and escape
// character; everything still survives persist and reload.
#[test]
fn cache_round_trip_with_separator_characters() {
    let wild_path = "di\tr/we\nird\\name.rs";
    let wild_text = "tab\tnewline\nunit\u{1f}rec\u{1e}back\\slash";
    let mut m = Cache::new();
    m.new_file_info(wild_path.to_string(), 42);
    assert!(m.record(wild_path, Loc::new(3, 7), wild_text.to_string(), Kind::Macro));
    let text = m.to_text();
    let reloaded = Cache::from_text(text.as_str()).expect("escaped text decodes");
    let info = reloaded.file_info(wild_path).expect("wild path survives");
    assert_eq!(info.modified, 42);
    assert_eq!(info.entries.len(), 1);
    assert_eq!(info.entries[0].loc, Loc::new(3, 7));
    assert_eq!(info.entries[0].text, wild_text.to_string());
    assert_eq!(info.entries[0].kind, Kind::Macro);
}

#[test]
fn new_file_info_discards_stale_entries() {
    let mut m = Cache::new();
    m.new_file_info("a.rs".to_string(), 1);
    record_n(&mut m, "a.rs", 3);
    m.new_file_info("a.rs".to_string(), 9);
    let info = m.file_info("a.rs").unwrap();
    assert_eq!(info.modified, 9);
    assert!(info.entries.is_empty());
}

#[test]
fn record_without_begin_changes_nothing() {
    let mut m = Cache::new();
    let ok = m.record("never", Loc::new(1, 0), "x".to_string(), Kind::Unknown);
    assert!(!ok);
    assert!(m.file_info("never").is_none());
}

#[test]
fn malformed_cache_text_is_refused() {
    assert!(Cache::from_text("one line of nonsense").is_none());
    // A line with a bad stamp.
    assert!(Cache::from_text("a.rs\u{1f}notanumber\u{1f}").is_none());
    // A dangling escape in the path field.
    assert!(Cache::from_text("a\\\u{1f}1\u{1f}").is_none());
    // Two lines naming the same path.
    let mut m = Cache::new();
    m.new_file_info("a.rs".to_string(), 1);
    let block = m.to_text();
    let doubled = format!("{block}\n{block}");
    assert!(Cache::from_text(doubled.as_str()).is_none());
}

// A file whose modification stamp differs from the cached one is never
// served from the cache, even if its content would be identical.
#[test]
fn changed_stamp_is_always_a_miss() {
    let info = FileInfo { modified: 100, entries: Vec::new() };
    assert!(use_cached(&Some(info.clone()), 100));
    assert!(!use_cached(&Some(info.clone()), 101));
    assert!(!use_cached(&Some(info), 99));
    assert!(!use_cached(&None, 100));
}

// N workers begin and record on N distinct paths concurrently, each
// applying the verified operations under the shared lock as the program
// does: N independent, uncorrupted records, none lost.
#[test]
fn concurrent_workers_keep_records_independent() {
    let cache = RwLock::new(Cache::new());
    let n: usize = 8;
    let per_path: usize = 25;
    crossbeam::thread::scope(|s| {
        for w in 0..n {
            let cache = &cache;
            s.spawn(move |_| {
                let path = format!("file{w}.rs");
                cache.write().new_file_info(path.clone(), w as u64);
                for i in 0..per_path {
                    let ok = cache.write().record(
                        path.as_str(),
                        Loc::new(i + 1, w),
                        format!("w{w}s{i}"),
                        Kind::Function,
                    );
                    assert!(ok);
                }
            });
        }
    })
    .expect("no worker panicked");
    let text = cache.read().to_text();
    let reloaded = Cache::from_text(text.as_str()).expect("persisted text decodes");
    for w in 0..n {
        let path = format!("file{w}.rs");
        let info = reloaded.file_info(path.as_str()).expect("record present");
        assert_eq!(info.modified, w as u64);
        assert_eq!(info.entries.len(), per_path);
        for i in 0..per_path {
            assert_eq!(info.entries[i].loc, Loc::new(i + 1, w));
            assert_eq!(info.entries[i].text, format!("w{w}s{i}"));
            assert_eq!(info.entries[i].kind, Kind::Function);
        }
    }
}

#[test]
fn shared_lookups_see_recorded_entries() {
    let cache = RwLock::new(Cache::new());
    assert!(cache.read().file_info("a.rs").is_none());
    cache.write().new_file_info("a.rs".to_string(), 7);
    assert!(cache.write().record("a.rs", Loc::new(3, 1), "thing".to_string(), Kind::Trait));
    let info = cache.read().file_info("a.rs").cloned().unwrap();
    assert_eq!(info.modified, 7);
    assert_eq!(info.entries.len(), 1);
    assert_eq!(info.entries[0].text, "thing".to_string());
    assert!(!cache.write().record("missing.rs", Loc::new(1, 0), "x".to_string(), Kind::Enum));
}

#[test]
fn cache_round_trip_edge_values() {
    let mut m = Cache::new();
    m.new_file_info("w\u{00e9}ird/p\u{00e4}th.rs".to_string(), u64::MAX);
    assert!(m.record("w\u{00e9}ird/p\u{00e4}th.rs", Loc::new(1, 0), String::new(), Kind::Unknown));
    assert!(m.record(
        "w\u{00e9}ird/p\u{00e4}th.rs",
        Loc::new(usize::MAX, usize::MAX),
        "\u{00fc}ml\u{00e4}ut".to_string(),
        Kind::Define,
    ));
    let text = m.to_text();
    let reloaded = Cache::from_text(text.as_str()).unwrap();
    let info = reloaded.file_info("w\u{00e9}ird/p\u{00e4}th.rs").unwrap();
    assert_eq!(info.modified, u64::MAX);
    assert_eq!(info.entries.len(), 2);
    assert_eq!(info.entries[0].text, String::new());
    assert_eq!(info.entries[0].kind, Kind::Unknown);
    assert_eq!(info.entries[1].loc, Loc::new(usize::MAX, usize::MAX));
    assert_eq!(info.entries[1].text, "\u{00fc}ml\u{00e4}ut".to_string());
    assert_eq!(info.entries[1].kind, Kind::Define);
}
