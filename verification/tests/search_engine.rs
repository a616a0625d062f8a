use keva_core::search::{keep_matching, CaseMatching, SearchConfig, SearchEngine, SearchResults};
use keva_core::types::key::Key;
use nucleo::{Config as NucleoConfig, Nucleo, Utf32String};
use std::sync::Arc;
use std::time::{Duration, Instant};

/// The engine driven with one nucleo matcher per index, as a program runs it.
struct Engine {
    engine: SearchEngine,
    active: Nucleo<Key>,
    trash: Nucleo<Key>,
}

fn new_matcher() -> Nucleo<Key> {
    Nucleo::new(NucleoConfig::DEFAULT, Arc::new(|| {}), None, 1)
}

fn inject(nucleo: &Nucleo<Key>, keys: Vec<Key>) {
    let injector = nucleo.injector();
    for key in keys {
        injector.push(key, |item, cols| {
            cols[0] = Utf32String::from(item.as_str());
        });
    }
}

fn matches(nucleo: &mut Nucleo<Key>, config: &SearchConfig, pattern: &str, deadline: Instant) -> Vec<Key> {
    let case_matching = match config.case_matching {
        CaseMatching::Sensitive => nucleo::pattern::CaseMatching::Respect,
        CaseMatching::Insensitive => nucleo::pattern::CaseMatching::Ignore,
        CaseMatching::Smart => nucleo::pattern::CaseMatching::Smart,
    };
    let normalization = if config.unicode_normalization {
        nucleo::pattern::Normalization::Smart
    } else {
        nucleo::pattern::Normalization::Never
    };
    nucleo.pattern.reparse(0, pattern, case_matching, normalization, false);
    let mut running = true;
    loop {
        let remaining = deadline.saturating_duration_since(Instant::now());
        let nanos = u64::try_from(remaining.as_nanos()).unwrap_or(u64::MAX);
        if !keep_matching(nanos, running) {
            break;
        }
        running = nucleo.tick(remaining.as_millis() as u64).running;
    }
    nucleo.snapshot().matched_items(..).map(|item| item.data.clone()).collect()
}

impl Engine {
    fn new(active: Vec<Key>, trashed: Vec<Key>, config: SearchConfig) -> Engine {
        let (engine, update) = SearchEngine::new(active, trashed, config);
        let e = Engine { engine, active: new_matcher(), trash: new_matcher() };
        inject(&e.active, update.active);
        inject(&e.trash, update.trash);
        e
    }

    fn add_active(&mut self, key: Key) {
        let keys = self.engine.add_active(key);
        inject(&self.active, keys);
    }

    fn trash(&mut self, key: &Key) {
        let keys = self.engine.trash(key);
        inject(&self.trash, keys);
    }

    fn restore(&mut self, key: &Key) {
        let keys = self.engine.restore(key);
        inject(&self.active, keys);
    }

    fn remove(&mut self, key: &Key) {
        self.engine.remove(key);
    }

    fn rename(&mut self, old: &Key, new: Key) {
        let update = self.engine.rename(old, new);
        inject(&self.active, update.active);
        inject(&self.trash, update.trash);
    }

    fn search(&mut self, pattern: &str, timeout_ms: u64) -> SearchResults {
        let deadline = Instant::now() + Duration::from_millis(timeout_ms);
        let config = *self.engine.config();
        let a = matches(&mut self.active, &config, pattern, deadline);
        let t = matches(&mut self.trash, &config, pattern, deadline);
        self.engine.results(&a, &t, (0, usize::MAX), (0, usize::MAX))
    }

    fn maintenance_compact(&mut self) {
        let rebuilt = self.engine.maintenance_compact();
        if let Some(keys) = rebuilt.active {
            self.active.restart(true);
            inject(&self.active, keys);
        }
        if let Some(keys) = rebuilt.trash {
            self.trash.restart(true);
            inject(&self.trash, keys);
        }
    }
}

fn make_key(s: &str) -> Key {
    Key::try_new(s.to_string()).unwrap()
}

fn test_config() -> SearchConfig {
    SearchConfig { case_matching: CaseMatching::Smart, unicode_normalization: true, rebuild_threshold: 100 }
}

fn create_engine() -> Engine {
    Engine::new(vec![], vec![], test_config())
}

fn create_engine_with_active(keys: &[&str]) -> Engine {
    let active = keys.iter().map(|s| make_key(s)).collect();
    Engine::new(active, vec![], test_config())
}

fn create_engine_with_both(active: &[&str], trashed: &[&str]) -> Engine {
    let active_keys = active.iter().map(|s| make_key(s)).collect();
    let trashed_keys = trashed.iter().map(|s| make_key(s)).collect();
    Engine::new(active_keys, trashed_keys, test_config())
}

fn names(keys: &[Key]) -> Vec<&str> {
    keys.iter().map(|k| k.as_str()).collect()
}

#[test]
fn test_new_with_active_keys() {
    let mut engine = create_engine_with_active(&["key1", "key2"]);
    let results = engine.search("key", 100);
    assert_eq!(results.active.len(), 2);
    assert!(results.trashed.is_empty());
}

#[test]
fn test_new_with_trashed_keys() {
    let trashed = vec![make_key("trashed1"), make_key("trashed2")];
    let mut engine = Engine::new(vec![], trashed, test_config());
    let results = engine.search("trashed", 100);
    assert!(results.active.is_empty());
    assert_eq!(results.trashed.len(), 2);
}

#[test]
fn test_new_with_both_active_and_trashed() {
    let mut engine = create_engine_with_both(&["active"], &["trashed"]);
    let results = engine.search("a", 100);
    assert_eq!(results.active.len(), 1);
    assert_eq!(results.trashed.len(), 1);
}

#[test]
fn test_new_empty() {
    let mut engine = create_engine();
    let results = engine.search("anything", 100);
    assert!(results.active.is_empty());
    assert!(results.trashed.is_empty());
}

#[test]
fn test_add_active_new_key() {
    let mut engine = create_engine();
    engine.add_active(make_key("new_key"));
    let results = engine.search("new_key", 100);
    assert_eq!(results.active.len(), 1);
    assert!(results.trashed.is_empty());
}

#[test]
fn test_add_active_moves_from_trash() {
    let mut engine = create_engine_with_both(&[], &["key"]);
    let before = engine.search("key", 100);
    assert!(before.active.is_empty());
    assert_eq!(before.trashed.len(), 1);

    engine.add_active(make_key("key"));

    let after = engine.search("key", 100);
    assert_eq!(after.active.len(), 1);
    assert!(after.trashed.is_empty());
}

#[test]
fn test_add_active_idempotent() {
    let mut engine = create_engine();
    engine.add_active(make_key("key"));
    engine.add_active(make_key("key"));
    let results = engine.search("key", 100);
    assert_eq!(results.active.len(), 1);
}

#[test]
fn test_trash_moves_from_active() {
    let mut engine = create_engine_with_active(&["key"]);
    let before = engine.search("key", 100);
    assert_eq!(before.active.len(), 1);
    assert!(before.trashed.is_empty());

    engine.trash(&make_key("key"));

    let after = engine.search("key", 100);
    assert!(after.active.is_empty());
    assert_eq!(after.trashed.len(), 1);
}

#[test]
fn test_trash_key_not_in_active_adds_to_trash() {
    let mut engine = create_engine();
    engine.trash(&make_key("key"));
    let results = engine.search("key", 100);
    assert!(results.active.is_empty());
    assert_eq!(results.trashed.len(), 1);
}

#[test]
fn test_restore_moves_from_trash() {
    let mut engine = create_engine_with_both(&[], &["key"]);
    engine.restore(&make_key("key"));
    let results = engine.search("key", 100);
    assert_eq!(results.active.len(), 1);
    assert!(results.trashed.is_empty());
}

#[test]
fn test_restore_key_not_in_trash_adds_to_active() {
    let mut engine = create_engine();
    engine.restore(&make_key("key"));
    let results = engine.search("key", 100);
    assert_eq!(results.active.len(), 1);
    assert!(results.trashed.is_empty());
}

#[test]
fn test_trash_then_restore_roundtrip() {
    let mut engine = create_engine_with_active(&["foo"]);

    let r1 = engine.search("foo", 100);
    assert!(r1.active.iter().any(|k| k.as_str() == "foo"));
    assert!(r1.trashed.is_empty());

    engine.trash(&make_key("foo"));
    let r2 = engine.search("foo", 100);
    assert!(r2.active.is_empty());
    assert!(r2.trashed.iter().any(|k| k.as_str() == "foo"));

    engine.restore(&make_key("foo"));
    let r3 = engine.search("foo", 100);
    assert!(r3.active.iter().any(|k| k.as_str() == "foo"));
    assert!(r3.trashed.is_empty());
}

#[test]
fn test_remove_from_active() {
    let mut engine = create_engine_with_active(&["key"]);
    engine.remove(&make_key("key"));
    let results = engine.search("key", 100);
    assert!(results.active.is_empty());
    assert!(results.trashed.is_empty());
}

#[test]
fn test_remove_from_trash() {
    let mut engine = create_engine_with_both(&[], &["key"]);
    engine.remove(&make_key("key"));
    let results = engine.search("key", 100);
    assert!(results.active.is_empty());
    assert!(results.trashed.is_empty());
}

#[test]
fn test_remove_removes_from_both() {
    let mut engine = create_engine_with_both(&["k"], &["k2"]);
    engine.remove(&make_key("k"));
    engine.remove(&make_key("k2"));
    let results = engine.search("k", 100);
    assert!(!results.active.iter().any(|k| k.as_str() == "k"));
    assert!(!results.trashed.iter().any(|k| k.as_str() == "k2"));
}

#[test]
fn test_remove_nonexistent_is_noop() {
    let mut engine = create_engine();
    engine.remove(&make_key("nonexistent"));
    let results = engine.search("", 100);
    assert!(results.active.is_empty());
    assert!(results.trashed.is_empty());
}

#[test]
fn test_search_separates_active_and_trashed() {
    let mut engine = create_engine_with_both(&["a1", "a2"], &["t1"]);
    let results = engine.search("1", 100);
    assert!(names(&results.active).contains(&"a1"));
    assert!(names(&results.trashed).contains(&"t1"));
}

#[test]
fn test_search_empty_pattern() {
    let mut engine = create_engine_with_active(&["key1", "key2"]);
    let results = engine.search("", 100);
    assert_eq!(results.active.len(), 2);
}

#[test]
fn test_search_no_matches() {
    let mut engine = create_engine_with_active(&["apple", "banana"]);
    let results = engine.search("xyz", 100);
    assert!(results.active.is_empty());
    assert!(results.trashed.is_empty());
}

#[test]
fn test_case_sensitive_search() {
    let config = SearchConfig { case_matching: CaseMatching::Sensitive, unicode_normalization: true, rebuild_threshold: 100 };
    let mut engine = Engine::new(vec![make_key("TestKey"), make_key("testkey")], vec![], config);
    let results = engine.search("Test", 100);
    assert!(names(&results.active).contains(&"TestKey"));
}

#[test]
fn test_case_insensitive_search() {
    let config = SearchConfig { case_matching: CaseMatching::Insensitive, unicode_normalization: true, rebuild_threshold: 100 };
    let mut engine = Engine::new(vec![make_key("TestKey"), make_key("testkey")], vec![], config);
    let results = engine.search("TEST", 100);
    assert_eq!(results.active.len(), 2);
}

#[test]
fn test_smart_case_lowercase_query() {
    let config = SearchConfig { case_matching: CaseMatching::Smart, unicode_normalization: true, rebuild_threshold: 100 };
    let mut engine = Engine::new(vec![make_key("TestKey"), make_key("testkey")], vec![], config);
    let results = engine.search("test", 100);
    assert_eq!(results.active.len(), 2);
}

#[test]
fn test_smart_case_uppercase_query() {
    let config = SearchConfig { case_matching: CaseMatching::Smart, unicode_normalization: true, rebuild_threshold: 100 };
    let mut engine = Engine::new(vec![make_key("TestKey"), make_key("testkey")], vec![], config);
    let results = engine.search("Test", 100);
    assert!(names(&results.active).contains(&"TestKey"));
}

#[test]
fn test_maintenance_compact_does_not_affect_search() {
    let mut engine = create_engine_with_active(&["key1", "key2", "key3"]);
    engine.remove(&make_key("key1"));
    engine.maintenance_compact();

    let results = engine.search("key", 100);
    assert_eq!(results.active.len(), 2);
    let keys = names(&results.active);
    assert!(!keys.contains(&"key1"));
    assert!(keys.contains(&"key2"));
    assert!(keys.contains(&"key3"));
}

#[test]
fn test_maintenance_after_many_deletions() {
    let mut engine = create_engine();
    for i in 0..150 {
        engine.add_active(make_key(&format!("key{}", i)));
    }
    for i in 0..110 {
        engine.remove(&make_key(&format!("key{}", i)));
    }
    engine.maintenance_compact();

    let results = engine.search("key", 100);
    assert_eq!(results.active.len(), 40);
}

#[test]
fn test_insert_after_rebuild_of_removed_key() {
    let mut engine = create_engine();
    engine.add_active(make_key("target"));
    for i in 0..110 {
        engine.add_active(make_key(&format!("filler{}", i)));
    }
    for i in 0..110 {
        engine.remove(&make_key(&format!("filler{}", i)));
    }
    engine.remove(&make_key("target"));
    engine.maintenance_compact();
    engine.add_active(make_key("target"));

    let results = engine.search("target", 100);
    assert_eq!(results.active.len(), 1);
    assert_eq!(results.active[0].as_str(), "target");
}

#[test]
fn test_search_engine_new() {
    let active = vec![make_key("foo"), make_key("bar")];
    let trashed = vec![make_key("baz")];
    let mut engine = Engine::new(active, trashed, SearchConfig::new());

    let results = engine.search("", 100);
    assert_eq!(results.active.len(), 2);
    assert_eq!(results.trashed.len(), 1);
}

#[test]
fn test_fuzzy_search_basic() {
    let active = vec![make_key("hello"), make_key("world"), make_key("help")];
    let mut engine = Engine::new(active, vec![], SearchConfig::new());

    let results = engine.search("hel", 100);
    let keys = names(&results.active);
    assert!(keys.contains(&"hello"));
    assert!(keys.contains(&"help"));
    assert!(!keys.contains(&"world"));
}

#[test]
fn test_add_and_remove() {
    let mut engine = Engine::new(vec![make_key("foo")], vec![], SearchConfig::new());

    engine.add_active(make_key("bar"));
    assert!(names(&engine.search("", 100).active).contains(&"bar"));

    engine.remove(&make_key("foo"));
    assert!(!names(&engine.search("", 100).active).contains(&"foo"));
}

#[test]
fn test_trash_and_restore() {
    let mut engine = Engine::new(vec![make_key("foo")], vec![], SearchConfig::new());

    engine.trash(&make_key("foo"));
    let r = engine.search("", 100);
    assert!(!names(&r.active).contains(&"foo"));
    assert!(names(&r.trashed).contains(&"foo"));

    engine.restore(&make_key("foo"));
    let r = engine.search("", 100);
    assert!(names(&r.active).contains(&"foo"));
    assert!(!names(&r.trashed).contains(&"foo"));
}

#[test]
fn test_rename() {
    let mut engine = Engine::new(vec![make_key("old")], vec![], SearchConfig::new());

    engine.rename(&make_key("old"), make_key("new"));
    let r = engine.search("", 100);
    assert!(!names(&r.active).contains(&"old"));
    assert!(names(&r.active).contains(&"new"));
}

#[test]
fn test_search_includes_trash_status() {
    let active = vec![make_key("active_key")];
    let trashed = vec![make_key("trashed_key")];
    let mut engine = Engine::new(active, trashed, SearchConfig::new());

    let results = engine.search("key", 100);
    assert!(names(&results.active).contains(&"active_key"));
    assert!(!names(&results.trashed).contains(&"active_key"));
    assert!(names(&results.trashed).contains(&"trashed_key"));
    assert!(!names(&results.active).contains(&"trashed_key"));
}
