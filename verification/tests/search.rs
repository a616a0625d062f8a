use keva_core::search::{to_bounds, CaseMatching, RangeEnd, SearchConfig, SearchEngine};
use keva_core::types::key::Key;

fn make_key(s: &str) -> Key {
    Key::try_new(s.to_string()).unwrap()
}

fn test_config() -> SearchConfig {
    SearchConfig { case_matching: CaseMatching::Smart, unicode_normalization: true, rebuild_threshold: 100 }
}

fn all() -> (usize, usize) {
    (0, usize::MAX)
}

/// Which of `keys` each index reports as present.
fn present(engine: &SearchEngine, keys: &[&str]) -> (Vec<String>, Vec<String>) {
    let ks: Vec<Key> = keys.iter().map(|s| make_key(s)).collect();
    let r = engine.results(&ks, &ks, all(), all());
    (
        r.active.iter().map(|k| k.as_str().to_string()).collect(),
        r.trashed.iter().map(|k| k.as_str().to_string()).collect(),
    )
}

#[test]
fn search_config_new_defaults() {
    let c = SearchConfig::new();
    assert_eq!(c.case_matching, CaseMatching::Smart);
    assert!(c.unicode_normalization);
    assert_eq!(c.rebuild_threshold, 100);
    assert_eq!(CaseMatching::default(), CaseMatching::Smart);
}

#[test]
fn new_engine_hands_each_key_once() {
    let (engine, update) = SearchEngine::new(
        vec![make_key("a"), make_key("b"), make_key("a")],
        vec![make_key("t")],
        test_config(),
    );
    let names: Vec<&str> = update.active.iter().map(|k| k.as_str()).collect();
    assert_eq!(names, vec!["a", "b"]);
    assert_eq!(update.trash.len(), 1);
    assert_eq!(present(&engine, &["a", "b", "t", "x"]), (vec!["a".to_string(), "b".to_string()], vec!["t".to_string()]));
}

#[test]
fn add_active_moves_from_trash() {
    let (mut engine, _) = SearchEngine::new(vec![], vec![make_key("k")], test_config());
    let handed = engine.add_active(make_key("k"));
    assert_eq!(handed.len(), 1);
    assert_eq!(present(&engine, &["k"]), (vec!["k".to_string()], vec![]));
    assert!(engine.add_active(make_key("k")).is_empty());
}

#[test]
fn trash_then_restore_roundtrip() {
    let (mut engine, _) = SearchEngine::new(vec![make_key("k")], vec![], test_config());
    let handed = engine.trash(&make_key("k"));
    assert_eq!(handed.len(), 1);
    assert_eq!(present(&engine, &["k"]), (vec![], vec!["k".to_string()]));
    let handed = engine.restore(&make_key("k"));
    assert!(handed.is_empty());
    assert_eq!(present(&engine, &["k"]), (vec!["k".to_string()], vec![]));
    let handed = engine.trash(&make_key("k"));
    assert!(handed.is_empty());
    assert_eq!(present(&engine, &["k"]), (vec![], vec!["k".to_string()]));
}

#[test]
fn remove_removes_from_both() {
    let (mut engine, _) = SearchEngine::new(vec![make_key("a")], vec![make_key("b")], test_config());
    engine.remove(&make_key("a"));
    engine.remove(&make_key("b"));
    engine.remove(&make_key("missing"));
    assert_eq!(present(&engine, &["a", "b", "missing"]), (vec![], vec![]));
}

#[test]
fn rename_keeps_the_index() {
    let (mut engine, _) = SearchEngine::new(vec![make_key("a")], vec![make_key("t")], test_config());
    let u = engine.rename(&make_key("a"), make_key("b"));
    assert_eq!(u.active.len(), 1);
    let u = engine.rename(&make_key("t"), make_key("u"));
    assert_eq!(u.trash.len(), 1);
    let u = engine.rename(&make_key("zz"), make_key("yy"));
    assert!(u.active.is_empty() && u.trash.is_empty());
    assert_eq!(present(&engine, &["a", "b", "t", "u", "yy"]), (vec!["b".to_string()], vec!["u".to_string()]));
}

#[test]
fn results_page_over_present_matches() {
    let (mut engine, _) = SearchEngine::new(
        vec![make_key("a"), make_key("b"), make_key("c"), make_key("d")],
        vec![],
        test_config(),
    );
    engine.remove(&make_key("b"));
    let matches: Vec<Key> = ["d", "b", "a", "c"].iter().map(|s| make_key(s)).collect();
    let names = |v: Vec<Key>| v.iter().map(|k| k.as_str().to_string()).collect::<Vec<_>>();
    assert_eq!(names(engine.results(&matches, &matches, (0, 2), all()).active), vec!["d", "a"]);
    assert_eq!(names(engine.results(&matches, &matches, (1, 3), all()).active), vec!["a", "c"]);
    // An empty range gives no key.
    assert!(engine.results(&matches, &matches, (2, 2), all()).active.is_empty());
    assert!(engine.results(&matches, &matches, (3, 1), all()).active.is_empty());
    assert!(engine.results(&matches, &matches, (3, 10), all()).active.is_empty());
}

#[test]
fn maintenance_rebuilds_after_threshold_and_keeps_presence() {
    let config = SearchConfig { case_matching: CaseMatching::Sensitive, unicode_normalization: false, rebuild_threshold: 1 };
    let (mut engine, _) = SearchEngine::new(vec![make_key("a"), make_key("b"), make_key("c")], vec![], config);
    engine.remove(&make_key("a"));
    let r = engine.maintenance_compact();
    assert!(r.active.is_none() && r.trash.is_none());
    engine.remove(&make_key("b"));
    let r = engine.maintenance_compact();
    let rebuilt: Vec<&str> = r.active.as_ref().unwrap().iter().map(|k| k.as_str()).collect();
    assert_eq!(rebuilt, vec!["c"]);
    assert!(r.trash.is_none());
    assert_eq!(present(&engine, &["a", "b", "c"]), (vec!["c".to_string()], vec![]));
    let handed = engine.add_active(make_key("a"));
    assert_eq!(handed.len(), 1);
}

#[test]
fn bounds_of_ranges() {
    assert_eq!(to_bounds(RangeEnd::Unbounded, RangeEnd::Unbounded), (0, usize::MAX));
    assert_eq!(to_bounds(RangeEnd::Included(2), RangeEnd::Excluded(5)), (2, 5));
    assert_eq!(to_bounds(RangeEnd::Excluded(2), RangeEnd::Included(5)), (3, 6));
    assert_eq!(to_bounds(RangeEnd::Excluded(usize::MAX), RangeEnd::Included(usize::MAX)), (usize::MAX, usize::MAX));
}

#[test]
fn keep_matching_until_deadline_or_idle() {
    assert!(keva_core::search::keep_matching(1, true));
    assert!(!keva_core::search::keep_matching(0, true));
    assert!(!keva_core::search::keep_matching(5, false));
}
