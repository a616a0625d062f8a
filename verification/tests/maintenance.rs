use keva_core::database::db::KeyDatabase;
use keva_core::database::maintenance::{maintenance_due_for, MaintenanceMetadata};
use keva_core::types::config::{Config, SavedConfig};
use keva_core::types::key::Key;
use keva_core::types::time::{TimeSpan, Timestamp};
use tempfile::TempDir;

fn open_db(trash: u64, purge: u64) -> (KeyDatabase, TempDir) {
    let temp_dir = TempDir::new().unwrap();
    let config = Config {
        base_path: temp_dir.path().to_str().unwrap().to_string(),
        saved: SavedConfig { trash_ttl: TimeSpan::from_secs(trash), purge_ttl: TimeSpan::from_secs(purge) },
    };
    (KeyDatabase::new(config).unwrap(), temp_dir)
}

#[test]
fn maintenance_record_json_roundtrip() {
    let m = MaintenanceMetadata { last_run_at: Some(Timestamp::new(1700000000, 123456789)) };
    let text = m.to_json();
    assert_eq!(
        text,
        "{\"last_run_at\":{\"secs_since_epoch\":1700000000,\"nanos_since_epoch\":123456789}}"
    );
    assert_eq!(MaintenanceMetadata::from_json(&text), Some(m));
    let none = MaintenanceMetadata { last_run_at: None };
    assert_eq!(none.to_json(), "{\"last_run_at\":null}");
    assert_eq!(MaintenanceMetadata::from_json("{\"last_run_at\":null}"), Some(none));
}

#[test]
fn maintenance_record_rejects_other_text() {
    assert_eq!(MaintenanceMetadata::from_json(""), None);
    assert_eq!(MaintenanceMetadata::from_json("{\"last_run_at\":{\"secs_since_epoch\":01,\"nanos_since_epoch\":0}}"), None);
    assert_eq!(MaintenanceMetadata::from_json("{\"last_run_at\":{\"secs_since_epoch\":1,\"nanos_since_epoch\":1000000000}}"), None);
    assert_eq!(MaintenanceMetadata::from_json("{\"last_run_at\":{\"secs_since_epoch\":18446744073709551616,\"nanos_since_epoch\":0}}"), None);
    let max = "{\"last_run_at\":{\"secs_since_epoch\":18446744073709551615,\"nanos_since_epoch\":0}}";
    assert_eq!(
        MaintenanceMetadata::from_json(max),
        Some(MaintenanceMetadata { last_run_at: Some(Timestamp::new(u64::MAX, 0)) })
    );
}

#[test]
fn maintenance_due_by_interval() {
    let text = MaintenanceMetadata { last_run_at: Some(Timestamp::new(100, 0)) }.to_json();
    let hour = TimeSpan::from_secs(3600);
    assert!(maintenance_due_for(None, Timestamp::new(0, 0), hour));
    assert!(!maintenance_due_for(Some(&text), Timestamp::new(100, 0), hour));
    assert!(!maintenance_due_for(Some(&text), Timestamp::new(3699, 999_999_999), hour));
    assert!(maintenance_due_for(Some(&text), Timestamp::new(3700, 0), hour));
    assert!(maintenance_due_for(Some(&text), Timestamp::new(99, 0), hour));
    assert!(maintenance_due_for(Some("garbage"), Timestamp::new(100, 0), hour));
}

#[test]
fn gc_records_the_run() {
    let (mut db, _t) = open_db(100, 50);
    let hour = TimeSpan::from_secs(3600);
    let now = Timestamp::new(1_000_000, 0);
    assert!(db.should_run_maintenance(now, hour));
    db.gc(now).unwrap();
    assert!(!db.should_run_maintenance(now.plus_secs(10), hour));
    assert!(db.should_run_maintenance(now.plus_secs(3600), hour));
}

#[test]
fn gc_boundary_is_inclusive_and_lists_in_index_order() {
    let (mut db, _t) = open_db(100, 50);
    let t0 = Timestamp::new(1_000, 0);
    let a = Key::try_from("a").unwrap();
    let b = Key::try_from("b").unwrap();
    let c = Key::try_from("c").unwrap();
    db.create(&b, t0).unwrap();
    db.create(&a, t0.plus_secs(1)).unwrap();
    db.create(&c, t0.plus_secs(2)).unwrap();
    let res = db.gc(t0.plus_secs(101)).unwrap();
    assert_eq!(res.trashed, vec![b.clone(), a.clone()]);
    assert!(res.purged.is_empty());
    let res = db.gc(t0.plus_secs(151)).unwrap();
    assert_eq!(res.trashed, vec![c.clone()]);
    assert_eq!(res.purged, vec![a.clone(), b.clone()]);
    assert!(db.get(&a).unwrap().is_none());
    assert!(db.get(&b).unwrap().is_none());
    assert_eq!(db.trashed_keys().unwrap(), vec![c]);
}

#[test]
fn maintenance_record_reads_json_with_whitespace() {
    let text = "{\n  \"last_run_at\": {\n    \"secs_since_epoch\": 42,\n\t\"nanos_since_epoch\": 7\r\n  }\n}";
    assert_eq!(
        MaintenanceMetadata::from_json(text),
        Some(MaintenanceMetadata { last_run_at: Some(Timestamp::new(42, 7)) })
    );
    assert_eq!(
        MaintenanceMetadata::from_json("{ \"last_run_at\" : null }"),
        Some(MaintenanceMetadata { last_run_at: None })
    );
}
