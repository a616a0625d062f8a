use keva_core::database::ttl_table::TtlTable;
use keva_core::types::key::Key;
use keva_core::types::time::{TimeSpan, Timestamp};
use keva_core::types::ttl_key::TtlKey;
use redb::ReadableDatabase;
use std::time::{SystemTime, UNIX_EPOCH};
use tempfile::tempdir;

const TEST_TABLE: TtlTable = TtlTable { name: "test_ttl" };

fn now_ts() -> Timestamp {
    let d = SystemTime::now().duration_since(UNIX_EPOCH).unwrap();
    Timestamp::new(d.as_secs(), d.subsec_nanos())
}

fn create_test_db() -> (redb::Database, tempfile::TempDir) {
    let temp = tempdir().unwrap();
    let db = redb::Database::create(temp.path().join("test.redb")).unwrap();
    (db, temp)
}

fn make_key(s: &str) -> Key {
    Key::try_new(s.to_string()).unwrap()
}

fn make_ttl_key(key: &str, timestamp: Timestamp) -> TtlKey {
    TtlKey { timestamp, key: make_key(key) }
}

#[test]
fn test_init_creates_table() {
    let (db, _temp) = create_test_db();
    let mut write_txn = db.begin_write().unwrap();

    TEST_TABLE.init(&mut write_txn).unwrap();

    write_txn.commit().unwrap();

    // Verify table exists by reading from it
    let read_txn = db.begin_read().unwrap();
    let keys = TEST_TABLE.all_keys(&read_txn).unwrap();
    assert!(keys.is_empty());
}

#[test]
fn test_init_idempotent() {
    let (db, _temp) = create_test_db();

    // Init twice should not error
    let mut write_txn = db.begin_write().unwrap();
    TEST_TABLE.init(&mut write_txn).unwrap();
    write_txn.commit().unwrap();

    let mut write_txn = db.begin_write().unwrap();
    TEST_TABLE.init(&mut write_txn).unwrap();
    write_txn.commit().unwrap();
}


#[test]
fn test_insert_single_key() {
    let (db, _temp) = create_test_db();
    let now = now_ts();

    let mut write_txn = db.begin_write().unwrap();
    TEST_TABLE.init(&mut write_txn).unwrap();
    TEST_TABLE
        .insert(&mut write_txn, &make_ttl_key("key1", now))
        .unwrap();
    write_txn.commit().unwrap();

    let read_txn = db.begin_read().unwrap();
    let keys = TEST_TABLE.all_keys(&read_txn).unwrap();
    assert_eq!(keys.len(), 1);
    assert_eq!(keys[0].as_str(), "key1");
}

#[test]
fn test_insert_multiple_keys() {
    let (db, _temp) = create_test_db();
    let now = now_ts();

    let mut write_txn = db.begin_write().unwrap();
    TEST_TABLE.init(&mut write_txn).unwrap();
    TEST_TABLE
        .insert(&mut write_txn, &make_ttl_key("key1", now))
        .unwrap();
    TEST_TABLE
        .insert(
            &mut write_txn,
            &make_ttl_key("key2", now.plus_secs(10)),
        )
        .unwrap();
    TEST_TABLE
        .insert(
            &mut write_txn,
            &make_ttl_key("key3", now.plus_secs(20)),
        )
        .unwrap();
    write_txn.commit().unwrap();

    let read_txn = db.begin_read().unwrap();
    let keys = TEST_TABLE.all_keys(&read_txn).unwrap();
    assert_eq!(keys.len(), 3);
}

#[test]
fn test_insert_duplicate_is_idempotent() {
    let (db, _temp) = create_test_db();
    let now = now_ts();
    let ttl_key = make_ttl_key("key1", now);

    let mut write_txn = db.begin_write().unwrap();
    TEST_TABLE.init(&mut write_txn).unwrap();
    TEST_TABLE.insert(&mut write_txn, &ttl_key).unwrap();
    TEST_TABLE.insert(&mut write_txn, &ttl_key).unwrap();
    write_txn.commit().unwrap();

    let read_txn = db.begin_read().unwrap();
    let keys = TEST_TABLE.all_keys(&read_txn).unwrap();
    assert_eq!(keys.len(), 1);
}


#[test]
fn test_remove_existing_key() {
    let (db, _temp) = create_test_db();
    let now = now_ts();
    let ttl_key = make_ttl_key("key1", now);

    let mut write_txn = db.begin_write().unwrap();
    TEST_TABLE.init(&mut write_txn).unwrap();
    TEST_TABLE.insert(&mut write_txn, &ttl_key).unwrap();
    write_txn.commit().unwrap();

    let mut write_txn = db.begin_write().unwrap();
    let removed = TEST_TABLE.remove(&mut write_txn, &ttl_key).unwrap();
    write_txn.commit().unwrap();

    assert!(removed);

    let read_txn = db.begin_read().unwrap();
    let keys = TEST_TABLE.all_keys(&read_txn).unwrap();
    assert!(keys.is_empty());
}

#[test]
fn test_remove_nonexistent_key() {
    let (db, _temp) = create_test_db();
    let now = now_ts();

    let mut write_txn = db.begin_write().unwrap();
    TEST_TABLE.init(&mut write_txn).unwrap();
    write_txn.commit().unwrap();

    let mut write_txn = db.begin_write().unwrap();
    let removed = TEST_TABLE
        .remove(&mut write_txn, &make_ttl_key("nonexistent", now))
        .unwrap();
    write_txn.commit().unwrap();

    assert!(!removed);
}

#[test]
fn test_remove_wrong_timestamp() {
    let (db, _temp) = create_test_db();
    let now = now_ts();

    let mut write_txn = db.begin_write().unwrap();
    TEST_TABLE.init(&mut write_txn).unwrap();
    TEST_TABLE
        .insert(&mut write_txn, &make_ttl_key("key1", now))
        .unwrap();
    write_txn.commit().unwrap();

    // Try to remove with different timestamp
    let mut write_txn = db.begin_write().unwrap();
    let removed = TEST_TABLE
        .remove(
            &mut write_txn,
            &make_ttl_key("key1", now.plus_secs(1)),
        )
        .unwrap();
    write_txn.commit().unwrap();

    // Should not remove because timestamp differs
    assert!(!removed);

    let read_txn = db.begin_read().unwrap();
    let keys = TEST_TABLE.all_keys(&read_txn).unwrap();
    assert_eq!(keys.len(), 1);
}


#[test]
fn test_no_expired_keys() {
    let (db, _temp) = create_test_db();
    let now = now_ts();

    let mut write_txn = db.begin_write().unwrap();
    TEST_TABLE.init(&mut write_txn).unwrap();
    TEST_TABLE
        .insert(&mut write_txn, &make_ttl_key("key1", now))
        .unwrap();
    write_txn.commit().unwrap();

    let read_txn = db.begin_read().unwrap();
    let expired = TEST_TABLE
        .expired_keys(&read_txn, now, TimeSpan::from_secs(100))
        .unwrap();

    assert!(expired.is_empty());
}

#[test]
fn test_all_keys_expired() {
    let (db, _temp) = create_test_db();
    let now = now_ts();
    let past = now.minus_secs(200);

    let mut write_txn = db.begin_write().unwrap();
    TEST_TABLE.init(&mut write_txn).unwrap();
    TEST_TABLE
        .insert(&mut write_txn, &make_ttl_key("key1", past))
        .unwrap();
    TEST_TABLE
        .insert(
            &mut write_txn,
            &make_ttl_key("key2", past.plus_secs(10)),
        )
        .unwrap();
    write_txn.commit().unwrap();

    let read_txn = db.begin_read().unwrap();
    let expired = TEST_TABLE
        .expired_keys(&read_txn, now, TimeSpan::from_secs(100))
        .unwrap();

    assert_eq!(expired.len(), 2);
}

#[test]
fn test_some_keys_expired() {
    let (db, _temp) = create_test_db();
    let now = now_ts();

    let mut write_txn = db.begin_write().unwrap();
    TEST_TABLE.init(&mut write_txn).unwrap();
    // This key expired (timestamp + 100s <= now)
    TEST_TABLE
        .insert(
            &mut write_txn,
            &make_ttl_key("expired", now.minus_secs(150)),
        )
        .unwrap();
    // This key not expired yet
    TEST_TABLE
        .insert(&mut write_txn, &make_ttl_key("active", now))
        .unwrap();
    write_txn.commit().unwrap();

    let read_txn = db.begin_read().unwrap();
    let expired = TEST_TABLE
        .expired_keys(&read_txn, now, TimeSpan::from_secs(100))
        .unwrap();

    assert_eq!(expired.len(), 1);
    assert_eq!(expired[0].as_str(), "expired");
}

#[test]
fn test_expired_keys_ordered_by_timestamp() {
    let (db, _temp) = create_test_db();
    let now = now_ts();
    let base = now.minus_secs(500);

    let mut write_txn = db.begin_write().unwrap();
    TEST_TABLE.init(&mut write_txn).unwrap();
    // Insert in non-chronological order
    TEST_TABLE
        .insert(
            &mut write_txn,
            &make_ttl_key("second", base.plus_secs(100)),
        )
        .unwrap();
    TEST_TABLE
        .insert(&mut write_txn, &make_ttl_key("first", base))
        .unwrap();
    TEST_TABLE
        .insert(
            &mut write_txn,
            &make_ttl_key("third", base.plus_secs(200)),
        )
        .unwrap();
    write_txn.commit().unwrap();

    let read_txn = db.begin_read().unwrap();
    let expired = TEST_TABLE
        .expired_keys(&read_txn, now, TimeSpan::from_secs(100))
        .unwrap();

    // Should be returned in timestamp order (oldest first)
    assert_eq!(expired.len(), 3);
    assert_eq!(expired[0].as_str(), "first");
    assert_eq!(expired[1].as_str(), "second");
    assert_eq!(expired[2].as_str(), "third");
}

#[test]
fn test_expired_keys_boundary() {
    let (db, _temp) = create_test_db();
    let now = now_ts();
    let ttl = TimeSpan::from_secs(100);

    let mut write_txn = db.begin_write().unwrap();
    TEST_TABLE.init(&mut write_txn).unwrap();
    // Exactly at expiration boundary (timestamp + ttl == now)
    TEST_TABLE
        .insert(&mut write_txn, &make_ttl_key("boundary", now.minus_secs(100)))
        .unwrap();
    // Just before expiration
    TEST_TABLE
        .insert(
            &mut write_txn,
            &make_ttl_key("not_expired", now.minus_secs(100).plus_secs(1)),
        )
        .unwrap();
    write_txn.commit().unwrap();

    let read_txn = db.begin_read().unwrap();
    let expired = TEST_TABLE.expired_keys(&read_txn, now, ttl).unwrap();

    // Boundary case: expires_at <= now means exactly at boundary is expired
    assert_eq!(expired.len(), 1);
    assert_eq!(expired[0].as_str(), "boundary");
}


#[test]
fn test_all_keys_empty() {
    let (db, _temp) = create_test_db();

    let mut write_txn = db.begin_write().unwrap();
    TEST_TABLE.init(&mut write_txn).unwrap();
    write_txn.commit().unwrap();

    let read_txn = db.begin_read().unwrap();
    let keys = TEST_TABLE.all_keys(&read_txn).unwrap();

    assert!(keys.is_empty());
}

#[test]
fn test_all_keys_returns_all() {
    let (db, _temp) = create_test_db();
    let now = now_ts();

    let mut write_txn = db.begin_write().unwrap();
    TEST_TABLE.init(&mut write_txn).unwrap();
    for i in 0..5 {
        TEST_TABLE
            .insert(
                &mut write_txn,
                &make_ttl_key(&format!("key{}", i), now.plus_secs(i)),
            )
            .unwrap();
    }
    write_txn.commit().unwrap();

    let read_txn = db.begin_read().unwrap();
    let keys = TEST_TABLE.all_keys(&read_txn).unwrap();

    assert_eq!(keys.len(), 5);
}
