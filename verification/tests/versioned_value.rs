use keva_core::types::time::Timestamp;
use keva_core::types::value::{
    Attachment, LifecycleState, Metadata, Value, ValueCodecError, VersionedValue,
};
use std::time::{SystemTime, UNIX_EPOCH};

fn now_ts() -> Timestamp {
    let d = SystemTime::now().duration_since(UNIX_EPOCH).unwrap();
    Timestamp::new(d.as_secs(), d.subsec_nanos())
}

#[test]
fn value_v1_empty_attachments_serialization() {
    let now = now_ts();
    let original_value = Value {
        metadata: Metadata {
            created_at: now,
            updated_at: now,
            lifecycle_state: LifecycleState::Active { last_accessed: now },
        },
        attachments: vec![],
        thumb_version: 0,
    };

    let versioned_value = VersionedValue::V1(original_value.clone());
    let bytes = versioned_value.as_bytes().unwrap();
    let deserialized_value = VersionedValue::from_bytes(&bytes).unwrap();

    match deserialized_value {
        VersionedValue::V1(v1_value) => {
            assert_eq!(v1_value, original_value);
        }
    }
}

#[test]
fn value_v1_with_attachments_serialization() {
    let now = now_ts();
    let original_value = Value {
        metadata: Metadata {
            created_at: now,
            updated_at: now,
            lifecycle_state: LifecycleState::Active { last_accessed: now },
        },
        attachments: vec![
            Attachment { filename: "test.txt".to_string(), size: 1024 },
            Attachment { filename: "image.png".to_string(), size: 2048 },
        ],
        thumb_version: 1,
    };

    let versioned_value = VersionedValue::V1(original_value.clone());
    let bytes = versioned_value.as_bytes().unwrap();
    let deserialized_value = VersionedValue::from_bytes(&bytes).unwrap();

    match deserialized_value {
        VersionedValue::V1(v1_value) => {
            assert_eq!(v1_value, original_value);
        }
    }
}

#[test]
fn value_v1_trashed_serialization() {
    let now = now_ts();
    let original_value = Value {
        metadata: Metadata {
            created_at: now,
            updated_at: now,
            lifecycle_state: LifecycleState::Trash { trashed_at: now },
        },
        attachments: vec![],
        thumb_version: 0,
    };

    let versioned_value = VersionedValue::V1(original_value.clone());
    let bytes = versioned_value.as_bytes().unwrap();
    let deserialized_value = VersionedValue::from_bytes(&bytes).unwrap();

    match deserialized_value {
        VersionedValue::V1(v1_value) => {
            assert_eq!(v1_value, original_value);
        }
    }
}

#[test]
fn versioned_bytes_start_with_version_and_reject_others() {
    let t = Timestamp::new(1, 2);
    let v = Value {
        metadata: Metadata {
            created_at: t,
            updated_at: t,
            lifecycle_state: LifecycleState::Active { last_accessed: t },
        },
        attachments: vec![],
        thumb_version: 3,
    };
    let bytes = VersionedValue::V1(v).as_bytes().unwrap();
    assert_eq!(bytes[0], 1);
    assert!(matches!(VersionedValue::from_bytes(&[]), Err(ValueCodecError::Empty)));
    assert!(matches!(
        VersionedValue::from_bytes(&[2, 0]),
        Err(ValueCodecError::UnsupportedVersion(2))
    ));
    assert!(matches!(VersionedValue::from_bytes(&[1]), Err(ValueCodecError::Malformed)));
}

#[test]
fn wire_form_roundtrip_and_checks() {
    let t = Timestamp::new(5, 6);
    let v = Value {
        metadata: Metadata {
            created_at: t,
            updated_at: Timestamp::new(7, 8),
            lifecycle_state: LifecycleState::Trash { trashed_at: t },
        },
        attachments: vec![Attachment { filename: "a".to_string(), size: 9 }],
        thumb_version: 2,
    };
    let w = v.to_wire();
    assert_eq!(w, (((5, 6), (7, 8), (1, (5, 6))), vec![("a".to_string(), 9)], 2));
    assert_eq!(Value::from_wire(w), Some(v));
    assert_eq!(Value::from_wire((((5, 1_000_000_000), (7, 8), (0, (5, 6))), vec![], 2)), None);
    assert_eq!(Value::from_wire((((5, 6), (7, 8), (2, (5, 6))), vec![], 2)), None);
}
