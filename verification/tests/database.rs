use keva_core::database::db::{KeyDatabase, THUMB_VER};
use keva_core::database::error::DatabaseError;
use keva_core::types::config::{Config, SavedConfig};
use keva_core::types::key::Key;
use keva_core::types::time::{TimeSpan, Timestamp};
use keva_core::types::ttl_key::TtlKey;
use keva_core::types::value::{Attachment, LifecycleState, Metadata};
use std::time::{SystemTime, UNIX_EPOCH};
use tempfile::TempDir;

fn now_ts() -> Timestamp {
    let d = SystemTime::now().duration_since(UNIX_EPOCH).unwrap();
    Timestamp::new(d.as_secs(), d.subsec_nanos())
}

fn create_test_db() -> (KeyDatabase, TempDir) {
    create_test_db_with_ttl(30 * 24 * 60 * 60, 7 * 24 * 60 * 60)
}

fn create_test_db_with_ttl(trash_ttl_secs: u64, purge_ttl_secs: u64) -> (KeyDatabase, TempDir) {
    let temp_dir = TempDir::new().unwrap();
    let config = Config {
        base_path: temp_dir.path().to_str().unwrap().to_string(),
        saved: SavedConfig {
            trash_ttl: TimeSpan::from_secs(trash_ttl_secs),
            purge_ttl: TimeSpan::from_secs(purge_ttl_secs),
        },
    };
    let db = KeyDatabase::new(config).unwrap();
    (db, temp_dir)
}

fn make_key(s: &str) -> Key {
    Key::try_from(s).unwrap()
}


#[test]
fn test_create_new_key() {
    let (mut db, _temp) = create_test_db();
    let key = make_key("test/key");
    let now = now_ts();

    db.create(&key, now).unwrap();

    let value = db.get(&key).unwrap().unwrap();
    assert!(value.attachments.is_empty());
    assert_eq!(value.thumb_version, THUMB_VER);
    assert_eq!(
        value.metadata,
        Metadata {
            created_at: now,
            updated_at: now,
            lifecycle_state: LifecycleState::Active { last_accessed: now },
        }
    )
}

#[test]
fn test_create_registers_in_ttl_table() {
    let (mut db, _temp) = create_test_db();
    let key = make_key("test/ttl");
    let now = now_ts();

    db.create(&key, now).unwrap();

    let ttl_key = TtlKey {
        timestamp: now,
        key: key.clone(),
    };
    assert!(db.has_index_entry(false, &ttl_key).unwrap());
}

#[test]
fn test_create_existing_key_fails() {
    let (mut db, _temp) = create_test_db();
    let key = make_key("test/key");
    let now = now_ts();

    db.create(&key, now).unwrap();

    let result = db.create(&key, now);
    assert!(matches!(result, Err(DatabaseError::AlreadyExists)));
}

#[test]
fn test_create_trashed_key_fails() {
    let (mut db, _temp) = create_test_db();
    let key = make_key("test/key");
    let now = now_ts();

    db.create(&key, now).unwrap();
    db.trash(&key, now).unwrap();

    let result = db.create(&key, now);
    assert!(matches!(result, Err(DatabaseError::AlreadyExists)));
}


#[test]
fn test_get_existing_key() {
    let (mut db, _temp) = create_test_db();
    let key = make_key("test/key");
    let now = now_ts();

    db.create(&key, now).unwrap();

    let value = db.get(&key).unwrap().unwrap();
    assert!(value.attachments.is_empty());
    assert_eq!(
        value.metadata,
        Metadata {
            created_at: now,
            updated_at: now,
            lifecycle_state: LifecycleState::Active { last_accessed: now },
        }
    );
}

#[test]
fn test_get_nonexistent_key() {
    let (db, _temp) = create_test_db();
    let key = make_key("nonexistent");

    let result = db.get(&key).unwrap();
    assert!(result.is_none());
}

#[test]
fn test_get_trashed_key() {
    let (mut db, _temp) = create_test_db();
    let key = make_key("test/key");
    let now = now_ts();

    db.create(&key, now).unwrap();

    let trash_time = now.plus_secs(10);
    db.trash(&key, trash_time).unwrap();

    let value = db.get(&key).unwrap().unwrap();
    assert_eq!(
        value.metadata,
        Metadata {
            created_at: now,
            updated_at: now,
            lifecycle_state: LifecycleState::Trash {
                trashed_at: trash_time
            },
        }
    );
}


#[test]
fn test_touch_updates_last_accessed() {
    let (mut db, _temp) = create_test_db();
    let key = make_key("test/touch");
    let create_time = now_ts();

    db.create(&key, create_time).unwrap();

    let touch_time = create_time.plus_secs(50);
    db.touch(&key, touch_time).unwrap();

    let value = db.get(&key).unwrap().unwrap();
    assert_eq!(
        value.metadata,
        Metadata {
            created_at: create_time,
            updated_at: create_time,
            lifecycle_state: LifecycleState::Active {
                last_accessed: touch_time
            },
        }
    );
}

#[test]
fn test_touch_nonexistent_key() {
    let (mut db, _temp) = create_test_db();
    let key = make_key("nonexistent");

    let result = db.touch(&key, now_ts());
    assert!(matches!(result, Err(DatabaseError::NotFound)));
}

#[test]
fn test_touch_trashed_key_fails() {
    let (mut db, _temp) = create_test_db();
    let key = make_key("test/trashed");
    let now = now_ts();

    db.create(&key, now).unwrap();
    db.trash(&key, now).unwrap();

    let result = db.touch(&key, now);
    assert!(matches!(result, Err(DatabaseError::Trashed)));
}


#[test]
fn test_mark_content_modified_updates_timestamps() {
    let (mut db, _temp) = create_test_db();
    let key = make_key("test/key");
    let create_time = now_ts();

    db.create(&key, create_time).unwrap();

    let modify_time = create_time.plus_secs(50);
    db.mark_content_modified(&key, modify_time).unwrap();

    let value = db.get(&key).unwrap().unwrap();
    assert_eq!(
        value.metadata,
        Metadata {
            created_at: create_time,
            updated_at: modify_time,
            lifecycle_state: LifecycleState::Active {
                last_accessed: modify_time
            },
        }
    );
}

#[test]
fn test_mark_content_modified_nonexistent_key() {
    let (mut db, _temp) = create_test_db();
    let key = make_key("nonexistent");

    let result = db.mark_content_modified(&key, now_ts());
    assert!(matches!(result, Err(DatabaseError::NotFound)));
}

#[test]
fn test_mark_content_modified_trashed_key_fails() {
    let (mut db, _temp) = create_test_db();
    let key = make_key("test/trashed");
    let now = now_ts();

    db.create(&key, now).unwrap();
    db.trash(&key, now).unwrap();

    let result = db.mark_content_modified(&key, now);
    assert!(matches!(result, Err(DatabaseError::Trashed)));
}


#[test]
fn test_add_attachment() {
    let (mut db, _temp) = create_test_db();
    let key = make_key("test/key");
    let create_time = now_ts();

    db.create(&key, create_time).unwrap();

    let add_time = create_time.plus_secs(10);
    db.add_attachment(
        &key,
        Attachment {
            filename: "test.txt".to_string(),
            size: 100,
        },
        add_time,
    )
    .unwrap();

    let value = db.get(&key).unwrap().unwrap();
    assert_eq!(value.attachments.len(), 1);
    assert_eq!(value.attachments[0].filename, "test.txt");
    assert_eq!(value.attachments[0].size, 100);
    assert_eq!(
        value.metadata,
        Metadata {
            created_at: create_time,
            updated_at: add_time,
            lifecycle_state: LifecycleState::Active {
                last_accessed: add_time
            },
        }
    );
}

#[test]
fn test_add_multiple_attachments() {
    let (mut db, _temp) = create_test_db();
    let key = make_key("test/key");
    let now = now_ts();

    db.create(&key, now).unwrap();
    db.add_attachment(
        &key,
        Attachment {
            filename: "file1.txt".to_string(),
            size: 100,
        },
        now,
    )
    .unwrap();
    db.add_attachment(
        &key,
        Attachment {
            filename: "file2.txt".to_string(),
            size: 200,
        },
        now,
    )
    .unwrap();

    let value = db.get(&key).unwrap().unwrap();
    assert_eq!(value.attachments.len(), 2);
}

#[test]
fn test_add_attachment_nonexistent_key() {
    let (mut db, _temp) = create_test_db();
    let key = make_key("nonexistent");

    let result = db.add_attachment(
        &key,
        Attachment {
            filename: "test.txt".to_string(),
            size: 100,
        },
        now_ts(),
    );
    assert!(matches!(result, Err(DatabaseError::NotFound)));
}

#[test]
fn test_add_attachment_trashed_key() {
    let (mut db, _temp) = create_test_db();
    let key = make_key("test/trashed");
    let now = now_ts();

    db.create(&key, now).unwrap();
    db.trash(&key, now).unwrap();

    let result = db.add_attachment(
        &key,
        Attachment {
            filename: "test.txt".to_string(),
            size: 100,
        },
        now,
    );
    assert!(matches!(result, Err(DatabaseError::Trashed)));
}

#[test]
fn test_add_attachment_updates_ttl() {
    let (mut db, _temp) = create_test_db();
    let key = make_key("test/ttl");
    let create_time = now_ts();

    db.create(&key, create_time).unwrap();

    let add_time = create_time.plus_secs(10);
    db.add_attachment(
        &key,
        Attachment {
            filename: "test.txt".to_string(),
            size: 100,
        },
        add_time,
    )
    .unwrap();

    let old_ttl = TtlKey {
        timestamp: create_time,
        key: key.clone(),
    };
    let new_ttl = TtlKey {
        timestamp: add_time,
        key: key.clone(),
    };
    assert!(!db.has_index_entry(false, &old_ttl).unwrap());
    assert!(db.has_index_entry(false, &new_ttl).unwrap());
}


#[test]
fn test_remove_attachment() {
    let (mut db, _temp) = create_test_db();
    let key = make_key("test/key");
    let create_time = now_ts();

    db.create(&key, create_time).unwrap();
    db.add_attachment(
        &key,
        Attachment {
            filename: "test.txt".to_string(),
            size: 100,
        },
        create_time,
    )
    .unwrap();

    let remove_time = create_time.plus_secs(10);
    db.remove_attachment(&key, "test.txt", remove_time).unwrap();

    let value = db.get(&key).unwrap().unwrap();
    assert!(value.attachments.is_empty());
    assert_eq!(
        value.metadata,
        Metadata {
            created_at: create_time,
            updated_at: remove_time,
            lifecycle_state: LifecycleState::Active {
                last_accessed: remove_time
            },
        }
    );
}

#[test]
fn test_remove_nonexistent_attachment() {
    let (mut db, _temp) = create_test_db();
    let key = make_key("test/key");
    let now = now_ts();

    db.create(&key, now).unwrap();

    let result = db.remove_attachment(&key, "nonexistent.txt", now);
    assert!(matches!(result, Err(DatabaseError::AttachmentNotFound(_))));
}

#[test]
fn test_remove_attachment_nonexistent_key() {
    let (mut db, _temp) = create_test_db();
    let key = make_key("nonexistent");

    let result = db.remove_attachment(&key, "test.txt", now_ts());
    assert!(matches!(result, Err(DatabaseError::NotFound)));
}

#[test]
fn test_remove_attachment_trashed_key() {
    let (mut db, _temp) = create_test_db();
    let key = make_key("test/trashed");
    let now = now_ts();

    db.create(&key, now).unwrap();
    db.add_attachment(
        &key,
        Attachment {
            filename: "test.txt".to_string(),
            size: 100,
        },
        now,
    )
    .unwrap();
    db.trash(&key, now).unwrap();

    let result = db.remove_attachment(&key, "test.txt", now);
    assert!(matches!(result, Err(DatabaseError::Trashed)));
}

#[test]
fn test_remove_attachment_updates_ttl() {
    let (mut db, _temp) = create_test_db();
    let key = make_key("test/ttl");
    let create_time = now_ts();

    db.create(&key, create_time).unwrap();
    db.add_attachment(
        &key,
        Attachment {
            filename: "test.txt".to_string(),
            size: 100,
        },
        create_time,
    )
    .unwrap();

    let remove_time = create_time.plus_secs(10);
    db.remove_attachment(&key, "test.txt", remove_time).unwrap();

    let old_ttl = TtlKey {
        timestamp: create_time,
        key: key.clone(),
    };
    let new_ttl = TtlKey {
        timestamp: remove_time,
        key: key.clone(),
    };
    assert!(!db.has_index_entry(false, &old_ttl).unwrap());
    assert!(db.has_index_entry(false, &new_ttl).unwrap());
}


#[test]
fn test_rename_attachment() {
    let (mut db, _temp) = create_test_db();
    let key = make_key("test/key");
    let create_time = now_ts();

    db.create(&key, create_time).unwrap();
    db.add_attachment(
        &key,
        Attachment {
            filename: "old.txt".to_string(),
            size: 100,
        },
        create_time,
    )
    .unwrap();

    let rename_time = create_time.plus_secs(10);
    db.rename_attachment(&key, "old.txt", "new.txt", rename_time)
        .unwrap();

    let value = db.get(&key).unwrap().unwrap();
    assert_eq!(value.attachments.len(), 1);
    assert_eq!(value.attachments[0].filename, "new.txt");
    assert_eq!(value.attachments[0].size, 100);
    assert_eq!(
        value.metadata,
        Metadata {
            created_at: create_time,
            updated_at: rename_time,
            lifecycle_state: LifecycleState::Active {
                last_accessed: rename_time
            },
        }
    );
}

#[test]
fn test_rename_nonexistent_attachment() {
    let (mut db, _temp) = create_test_db();
    let key = make_key("test/key");
    let now = now_ts();

    db.create(&key, now).unwrap();

    let result = db.rename_attachment(&key, "nonexistent.txt", "new.txt", now);
    assert!(matches!(result, Err(DatabaseError::AttachmentNotFound(_))));
}

#[test]
fn test_rename_overwrites_existing() {
    let (mut db, _temp) = create_test_db();
    let key = make_key("test/key");
    let now = now_ts();

    db.create(&key, now).unwrap();
    db.add_attachment(
        &key,
        Attachment {
            filename: "a.txt".to_string(),
            size: 100,
        },
        now,
    )
    .unwrap();
    db.add_attachment(
        &key,
        Attachment {
            filename: "b.txt".to_string(),
            size: 200,
        },
        now,
    )
    .unwrap();

    db.rename_attachment(&key, "a.txt", "b.txt", now).unwrap();

    let value = db.get(&key).unwrap().unwrap();
    assert_eq!(value.attachments.len(), 1);
    assert_eq!(value.attachments[0].filename, "b.txt");
    assert_eq!(value.attachments[0].size, 100); // Source's size preserved
}

#[test]
fn test_rename_attachment_updates_ttl() {
    let (mut db, _temp) = create_test_db();
    let key = make_key("test/ttl");
    let create_time = now_ts();

    db.create(&key, create_time).unwrap();
    db.add_attachment(
        &key,
        Attachment {
            filename: "old.txt".to_string(),
            size: 100,
        },
        create_time,
    )
    .unwrap();

    let rename_time = create_time.plus_secs(10);
    db.rename_attachment(&key, "old.txt", "new.txt", rename_time)
        .unwrap();

    let old_ttl = TtlKey {
        timestamp: create_time,
        key: key.clone(),
    };
    let new_ttl = TtlKey {
        timestamp: rename_time,
        key: key.clone(),
    };
    assert!(!db.has_index_entry(false, &old_ttl).unwrap());
    assert!(db.has_index_entry(false, &new_ttl).unwrap());
}


#[test]
fn test_rename_key() {
    let (mut db, _temp) = create_test_db();
    let src = make_key("src/key");
    let dst = make_key("dst/key");
    let now = now_ts();

    db.create(&src, now).unwrap();
    db.rename(&src, &dst, now).unwrap();

    assert!(db.get(&src).unwrap().is_none());

    let value = db.get(&dst).unwrap().unwrap();
    assert_eq!(
        value.metadata,
        Metadata {
            created_at: now,
            updated_at: now,
            lifecycle_state: LifecycleState::Active { last_accessed: now },
        }
    );
}

#[test]
fn test_rename_trashed_key() {
    let (mut db, _temp) = create_test_db();
    let src = make_key("src/trashed");
    let dst = make_key("dst/trashed");
    let now = now_ts();

    db.create(&src, now).unwrap();

    let trash_time = now.plus_secs(10);
    db.trash(&src, trash_time).unwrap();

    db.rename(&src, &dst, now).unwrap();

    let value = db.get(&dst).unwrap().unwrap();
    assert_eq!(
        value.metadata,
        Metadata {
            created_at: now,
            updated_at: now,
            lifecycle_state: LifecycleState::Trash {
                trashed_at: trash_time
            },
        }
    );
}

#[test]
fn test_rename_nonexistent_key() {
    let (mut db, _temp) = create_test_db();
    let src = make_key("nonexistent");
    let dst = make_key("dst/key");

    let result = db.rename(&src, &dst, now_ts());
    assert!(matches!(result, Err(DatabaseError::NotFound)));
}

#[test]
fn test_rename_overwrites_existing_key() {
    let (mut db, _temp) = create_test_db();
    let key1 = make_key("key1");
    let key2 = make_key("key2");
    let now = now_ts();

    db.create(&key1, now).unwrap();
    db.create(&key2, now).unwrap();

    db.rename(&key1, &key2, now).unwrap();

    assert!(db.get(&key1).unwrap().is_none());
    assert!(db.get(&key2).unwrap().is_some());
}

#[test]
fn test_rename_transfers_active_ttl_entry() {
    let (mut db, _temp) = create_test_db();
    let src = make_key("src/key");
    let dst = make_key("dst/key");
    let now = now_ts();

    db.create(&src, now).unwrap();
    db.rename(&src, &dst, now).unwrap();

    let src_ttl = TtlKey {
        timestamp: now,
        key: src.clone(),
    };
    let dst_ttl = TtlKey {
        timestamp: now,
        key: dst.clone(),
    };
    assert!(!db.has_index_entry(false, &src_ttl).unwrap());
    assert!(db.has_index_entry(false, &dst_ttl).unwrap());
}

#[test]
fn test_rename_transfers_trash_ttl_entry() {
    let (mut db, _temp) = create_test_db();
    let src = make_key("src/trashed");
    let dst = make_key("dst/trashed");
    let now = now_ts();

    db.create(&src, now).unwrap();

    let trash_time = now.plus_secs(10);
    db.trash(&src, trash_time).unwrap();

    db.rename(&src, &dst, now).unwrap();

    let src_ttl = TtlKey {
        timestamp: trash_time,
        key: src.clone(),
    };
    let dst_ttl = TtlKey {
        timestamp: trash_time,
        key: dst.clone(),
    };
    assert!(!db.has_index_entry(true, &src_ttl).unwrap());
    assert!(db.has_index_entry(true, &dst_ttl).unwrap());
}


#[test]
fn test_update_thumb_version() {
    let (mut db, _temp) = create_test_db();
    let key = make_key("test/thumb");
    let now = now_ts();

    db.create(&key, now).unwrap();

    let value = db.get(&key).unwrap().unwrap();
    assert_eq!(value.thumb_version, THUMB_VER);

    db.update_thumb_version(&key, THUMB_VER + 1)
        .unwrap();

    let value = db.get(&key).unwrap().unwrap();
    assert_eq!(value.thumb_version, THUMB_VER + 1);
}

#[test]
fn test_update_thumb_version_not_found() {
    let (mut db, _temp) = create_test_db();
    let key = make_key("nonexistent");

    let result = db.update_thumb_version(&key, 1);
    assert!(matches!(result, Err(DatabaseError::NotFound)));
}


#[test]
fn test_trash_sets_lifecycle_and_timestamp() {
    let (mut db, _temp) = create_test_db();
    let key = make_key("test/trash");
    let create_time = now_ts();

    db.create(&key, create_time).unwrap();

    let trash_time = create_time.plus_secs(100);
    db.trash(&key, trash_time).unwrap();

    let value = db.get(&key).unwrap().unwrap();
    assert_eq!(
        value.metadata,
        Metadata {
            created_at: create_time,
            updated_at: create_time,
            lifecycle_state: LifecycleState::Trash {
                trashed_at: trash_time
            },
        }
    );

    let old_ttl_key = TtlKey {
        timestamp: create_time,
        key: key.clone(),
    };
    let new_ttl_key = TtlKey {
        timestamp: trash_time,
        key: key.clone(),
    };
    assert!(!db.has_index_entry(false, &old_ttl_key).unwrap());
    assert!(db.has_index_entry(true, &new_ttl_key).unwrap());
}

#[test]
fn test_trash_nonexistent_key() {
    let (mut db, _temp) = create_test_db();
    let key = make_key("nonexistent");

    let result = db.trash(&key, now_ts());
    assert!(matches!(result, Err(DatabaseError::NotFound)));
}

#[test]
fn test_trash_already_trashed_key() {
    let (mut db, _temp) = create_test_db();
    let key = make_key("test/double-trash");
    let now = now_ts();

    db.create(&key, now).unwrap();
    db.trash(&key, now).unwrap();

    let result = db.trash(&key, now);
    assert!(matches!(result, Err(DatabaseError::Trashed)));
}


#[test]
fn test_restore_trashed_key() {
    let (mut db, _temp) = create_test_db();
    let key = make_key("test/restore");
    let create_time = now_ts();

    db.create(&key, create_time).unwrap();

    let trash_time = create_time.plus_secs(10);
    db.trash(&key, trash_time).unwrap();

    let restore_time = create_time.plus_secs(20);
    db.restore(&key, restore_time).unwrap();

    let value = db.get(&key).unwrap().unwrap();
    // Note: restore only updates last_accessed, not updated_at
    // (restore is not a content modification)
    assert_eq!(
        value.metadata,
        Metadata {
            created_at: create_time,
            updated_at: create_time,
            lifecycle_state: LifecycleState::Active {
                last_accessed: restore_time
            },
        }
    );

    let ttl_key = TtlKey {
        timestamp: restore_time,
        key: key.clone(),
    };
    assert!(db.has_index_entry(false, &ttl_key).unwrap());
}

#[test]
fn test_restore_nonexistent_key() {
    let (mut db, _temp) = create_test_db();
    let key = make_key("nonexistent");

    let result = db.restore(&key, now_ts());
    assert!(matches!(result, Err(DatabaseError::NotFound)));
}

#[test]
fn test_restore_active_key() {
    let (mut db, _temp) = create_test_db();
    let key = make_key("test/active");
    let now = now_ts();

    db.create(&key, now).unwrap();

    let result = db.restore(&key, now);
    assert!(matches!(result, Err(DatabaseError::NotTrashed)));
}


#[test]
fn test_purge_removes_key() {
    let (mut db, _temp) = create_test_db();
    let key = make_key("test/purge");
    let now = now_ts();

    db.create(&key, now).unwrap();
    db.purge(&key).unwrap();

    assert!(db.get(&key).unwrap().is_none());
}

#[test]
fn test_purge_trashed_key() {
    let (mut db, _temp) = create_test_db();
    let key = make_key("test/purge-trashed");
    let now = now_ts();

    db.create(&key, now).unwrap();
    db.trash(&key, now.plus_secs(10)).unwrap();
    db.purge(&key).unwrap();

    assert!(db.get(&key).unwrap().is_none());
}

#[test]
fn test_purge_nonexistent_key() {
    let (mut db, _temp) = create_test_db();
    let key = make_key("nonexistent");

    let result = db.purge(&key);
    assert!(matches!(result, Err(DatabaseError::NotFound)));
}


#[test]
fn test_gc_no_expired() {
    let (mut db, _temp) = create_test_db();
    let now = now_ts();

    db.create(&make_key("test"), now).unwrap();

    let result = db.gc(now).unwrap();
    assert!(result.trashed.is_empty());
    assert!(result.purged.is_empty());
}

#[test]
fn test_gc_trashes_expired() {
    let (mut db, _temp) = create_test_db_with_ttl(100, 50);

    let create_time = now_ts();
    let key = make_key("test");

    db.create(&key, create_time).unwrap();

    let gc_time = create_time.plus_secs(150);
    let result = db.gc(gc_time).unwrap();

    assert_eq!(result.trashed, std::slice::from_ref(&key));
    assert!(result.purged.is_empty());

    let value = db.get(&key).unwrap().unwrap();
    assert_eq!(
        value.metadata,
        Metadata {
            created_at: create_time,
            updated_at: create_time,
            lifecycle_state: LifecycleState::Trash {
                trashed_at: gc_time
            },
        }
    );
}

#[test]
fn test_gc_purges_expired() {
    let (mut db, _temp) = create_test_db_with_ttl(100, 50);

    let create_time = now_ts();
    let key = make_key("test");

    db.create(&key, create_time).unwrap();

    let trash_time = create_time.plus_secs(10);
    db.trash(&key, trash_time).unwrap();

    let gc_time = trash_time.plus_secs(60);
    let result = db.gc(gc_time).unwrap();

    assert!(result.trashed.is_empty());
    assert_eq!(result.purged, std::slice::from_ref(&key));

    assert!(db.get(&key).unwrap().is_none());
}

#[test]
fn test_gc_full_lifecycle() {
    let (mut db, _temp) = create_test_db_with_ttl(100, 50);

    let create_time = now_ts();
    let key = make_key("lifecycle-test");

    db.create(&key, create_time).unwrap();

    // Phase 1: Before trash TTL
    let t1 = create_time.plus_secs(50);
    let result1 = db.gc(t1).unwrap();
    assert!(result1.trashed.is_empty());
    assert!(result1.purged.is_empty());

    // Phase 2: After trash TTL
    let t2 = create_time.plus_secs(150);
    let result2 = db.gc(t2).unwrap();
    assert_eq!(result2.trashed, std::slice::from_ref(&key));
    assert!(result2.purged.is_empty());

    let value = db.get(&key).unwrap().unwrap();
    assert_eq!(
        value.metadata,
        Metadata {
            created_at: create_time,
            updated_at: create_time,
            lifecycle_state: LifecycleState::Trash { trashed_at: t2 },
        }
    );

    // Phase 3: After purge TTL
    let t3 = t2.plus_secs(60);
    let result3 = db.gc(t3).unwrap();
    assert!(result3.trashed.is_empty());
    assert_eq!(result3.purged, std::slice::from_ref(&key));

    assert!(db.get(&key).unwrap().is_none());
}

#[test]
fn test_touch_resets_trash_timer() {
    let (mut db, _temp) = create_test_db_with_ttl(100, 50);

    let create_time = now_ts();
    let key = make_key("touch-test");

    db.create(&key, create_time).unwrap();

    let touch_time = create_time.plus_secs(80);
    db.touch(&key, touch_time).unwrap();

    // Would be expired based on create_time, but not based on touch_time
    let check_time = create_time.plus_secs(150);
    let result = db.gc(check_time).unwrap();
    assert!(result.trashed.is_empty());

    // Now past touch_time + trash_ttl
    let check_time2 = touch_time.plus_secs(110);
    let result2 = db.gc(check_time2).unwrap();
    assert_eq!(result2.trashed.len(), 1);
}


#[test]
fn test_multiple_attachments() {
    let (mut db, _temp) = create_test_db();
    let key = make_key("multi-attachment");
    let now = now_ts();

    db.create(&key, now).unwrap();
    db.add_attachment(
        &key,
        Attachment {
            filename: "file1.txt".to_string(),
            size: 100,
        },
        now,
    )
    .unwrap();
    db.add_attachment(
        &key,
        Attachment {
            filename: "file2.txt".to_string(),
            size: 200,
        },
        now,
    )
    .unwrap();

    let value = db.get(&key).unwrap().unwrap();
    assert_eq!(value.attachments.len(), 2);
    assert_eq!(value.attachments[0].filename, "file1.txt");
    assert_eq!(value.attachments[1].filename, "file2.txt");
}

#[test]
fn test_hierarchical_keys() {
    let (mut db, _temp) = create_test_db();
    let now = now_ts();

    let keys = [
        "project/config/theme",
        "project/config/language",
        "project/data",
        "other/key",
    ];

    for key_str in &keys {
        let key = make_key(key_str);
        db.create(&key, now).unwrap();
    }

    for key_str in &keys {
        let key = make_key(key_str);
        let value = db.get(&key).unwrap().unwrap();
        assert!(matches!(
            value.metadata.lifecycle_state,
            LifecycleState::Active { .. }
        ));
    }
}

/// Stale active keys (TTL expired but GC hasn't run) can still be touched.
#[test]
fn test_stale_active_key_can_be_rescued_by_touch() {
    let (mut db, _temp) = create_test_db_with_ttl(100, 50);
    let key = make_key("rescue-me");
    let create_time = now_ts();

    db.create(&key, create_time).unwrap();

    let stale_time = create_time.plus_secs(150);
    db.touch(&key, stale_time).unwrap();

    let value = db.get(&key).unwrap().unwrap();
    assert_eq!(
        value.metadata,
        Metadata {
            created_at: create_time,
            updated_at: create_time,
            lifecycle_state: LifecycleState::Active {
                last_accessed: stale_time
            },
        }
    );

    let result = db.gc(stale_time).unwrap();
    assert!(result.trashed.is_empty());
}

/// Stale trashed keys (purge TTL expired but GC hasn't run) can still be restored.
#[test]
fn test_stale_trashed_key_can_be_rescued_by_restore() {
    let (mut db, _temp) = create_test_db_with_ttl(100, 50);
    let key = make_key("rescue-me");
    let create_time = now_ts();

    db.create(&key, create_time).unwrap();

    let trash_time = create_time.plus_secs(10);
    db.trash(&key, trash_time).unwrap();

    let stale_time = trash_time.plus_secs(60);
    db.restore(&key, stale_time).unwrap();

    let value = db.get(&key).unwrap().unwrap();
    // Note: restore only updates last_accessed, not updated_at
    assert_eq!(
        value.metadata,
        Metadata {
            created_at: create_time,
            updated_at: create_time,
            lifecycle_state: LifecycleState::Active {
                last_accessed: stale_time
            },
        }
    );

    let result = db.gc(stale_time).unwrap();
    assert!(result.trashed.is_empty());
    assert!(result.purged.is_empty());
}

#[test]
fn rename_attachment_to_its_own_name_keeps_it() {
    let (mut db, _temp) = create_test_db();
    let key = make_key("test/key");
    let now = now_ts();

    db.create(&key, now).unwrap();
    db.add_attachment(&key, Attachment { filename: "a.txt".to_string(), size: 7 }, now).unwrap();
    db.rename_attachment(&key, "a.txt", "a.txt", now.plus_secs(1)).unwrap();

    let value = db.get(&key).unwrap().unwrap();
    assert_eq!(value.attachments.len(), 1);
    assert_eq!(value.attachments[0].filename, "a.txt");
    assert_eq!(value.attachments[0].size, 7);

    let result = db.rename_attachment(&key, "b.txt", "b.txt", now);
    assert!(matches!(result, Err(DatabaseError::AttachmentNotFound(_))));
}

#[test]
fn replace_attachment_keeps_one_of_a_name() {
    let (mut db, _temp) = create_test_db();
    let key = make_key("test/key");
    let now = now_ts();

    db.create(&key, now).unwrap();
    db.replace_attachment(&key, Attachment { filename: "a.txt".to_string(), size: 1 }, now).unwrap();
    db.replace_attachment(&key, Attachment { filename: "b.txt".to_string(), size: 2 }, now).unwrap();
    db.replace_attachment(&key, Attachment { filename: "a.txt".to_string(), size: 3 }, now).unwrap();

    let value = db.get(&key).unwrap().unwrap();
    let names: Vec<(&str, u64)> = value.attachments.iter().map(|a| (a.filename.as_str(), a.size)).collect();
    assert_eq!(names, vec![("b.txt", 2), ("a.txt", 3)]);

    let result = db.replace_attachment(&make_key("missing"), Attachment { filename: "a.txt".to_string(), size: 1 }, now);
    assert!(matches!(result, Err(DatabaseError::NotFound)));
}

fn fresh_redb(dir: &TempDir) -> redb::Database {
    let db = redb::Database::create(dir.path().join("keva.redb")).unwrap();
    let t = db.begin_write().unwrap();
    {
        t.open_table(redb::TableDefinition::<&str, &[u8]>::new("main")).unwrap();
        t.open_table(redb::TableDefinition::<&str, &str>::new("metadata")).unwrap();
        t.open_table(redb::TableDefinition::<&[u8], ()>::new("ttl_trashed")).unwrap();
        t.open_table(redb::TableDefinition::<&[u8], ()>::new("ttl_purged")).unwrap();
    }
    t.commit().unwrap();
    db
}

fn saved() -> SavedConfig {
    SavedConfig { trash_ttl: TimeSpan::from_secs(10), purge_ttl: TimeSpan::from_secs(5) }
}

#[test]
fn from_database_accepts_sound_data() {
    let dir = TempDir::new().unwrap();
    let db = fresh_redb(&dir);
    let kdb = KeyDatabase::from_database(db, saved()).unwrap();
    assert!(kdb.active_keys().unwrap().is_empty());
}

#[test]
fn from_database_reports_unsound_data() {
    let dir = TempDir::new().unwrap();
    let db = fresh_redb(&dir);
    let t = db.begin_write().unwrap();
    {
        let mut main = t.open_table(redb::TableDefinition::<&str, &[u8]>::new("main")).unwrap();
        main.insert("k", &[1u8, 2, 3][..]).unwrap();
    }
    t.commit().unwrap();
    assert!(matches!(KeyDatabase::from_database(db, saved()), Err(DatabaseError::Corrupted)));
}
