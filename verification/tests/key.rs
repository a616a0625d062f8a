use keva_core::types::key::{Key, KeyError, MAX_KEY_LENGTH};

#[test]
fn key_normal_usage() {
    let key_str = "valid_key";
    let key = Key::try_from(key_str).unwrap();
    assert_eq!(key.as_str(), key_str);

    let key_from_text = Key::try_from(key.as_str()).unwrap();
    assert_eq!(key, key_from_text);
}

#[test]
fn key_rejects_empty_string() {
    let result = Key::try_from("");
    result.unwrap_err();
}

#[test]
fn key_rejects_whitespace_string() {
    let result = Key::try_from("   ");
    result.unwrap_err();
}

#[test]
fn key_rejects_too_long_string() {
    let long_string = "a".repeat(MAX_KEY_LENGTH + 1);
    let result = Key::try_from(long_string.as_str());
    result.unwrap_err();
}

#[test]
fn key_ordering() {
    let keys: [&str; 4] = ["a", "b", "a/", "apple"];

    for l in keys.iter() {
        for r in keys.iter() {
            let key_l = Key::try_from(*l).unwrap();
            let key_r = Key::try_from(*r).unwrap();
            let expected_ordering = l.cmp(r);
            assert_eq!(
                key_l.cmp(&key_r),
                expected_ordering,
                "Comparing '{}' and '{}'",
                l,
                r
            );
        }
    }
}

#[test]
fn key_trims_and_counts_characters() {
    assert_eq!(Key::try_from("  padded\t").unwrap().as_str(), "padded");
    assert!(matches!(Key::try_from(" \n "), Err(KeyError::NotEmptyViolated)));
    let max = "é".repeat(MAX_KEY_LENGTH);
    assert!(Key::try_from(max.as_str()).is_ok());
    let over = "é".repeat(MAX_KEY_LENGTH + 1);
    assert!(matches!(Key::try_from(over.as_str()), Err(KeyError::LenCharMaxViolated)));
    assert_eq!(Key::try_new("  x ".to_string()).unwrap().as_str(), "x");
}
