use keva_core::model::{Key, Value};

#[test]
fn test_key_validation() {
    assert!(Key::new("project").is_ok());
    assert!(Key::new("project/config").is_ok());
    assert!(Key::new("project/config/theme").is_ok());
    assert!(Key::new("a-b_c.d").is_ok());

    assert!(Key::new("").is_err());
    assert!(Key::new("/project").is_err());
    assert!(Key::new("project/").is_err());
    assert!(Key::new("project//config").is_err());
}

#[test]
fn test_key_parent() {
    let key = Key::new("project/config/theme").unwrap();
    let parent = key.parent().unwrap();
    assert_eq!(parent.as_str(), "project/config");

    let grandparent = parent.parent().unwrap();
    assert_eq!(grandparent.as_str(), "project");

    assert!(grandparent.parent().is_none());
}

#[test]
fn test_key_is_child_of() {
    let parent = Key::new("project").unwrap();
    let child = Key::new("project/config").unwrap();
    let grandchild = Key::new("project/config/theme").unwrap();

    assert!(child.is_child_of(&parent));
    assert!(!grandchild.is_child_of(&parent));
    assert!(grandchild.is_child_of(&child));
}

#[test]
fn test_key_is_descendant_of() {
    let ancestor = Key::new("project").unwrap();
    let child = Key::new("project/config").unwrap();
    let grandchild = Key::new("project/config/theme").unwrap();

    assert!(child.is_descendant_of(&ancestor));
    assert!(grandchild.is_descendant_of(&ancestor));
    assert!(grandchild.is_descendant_of(&child));
    assert!(!ancestor.is_descendant_of(&child));
}

#[test]
fn test_value_plain_text() {
    let value = Value::plain_text("hello");
    assert!(value.has_plain_text());
    assert!(!value.has_rich());
    assert!(!value.is_empty());

    let empty = Value::plain_text("   ");
    assert!(!empty.has_plain_text());
    assert!(empty.is_empty());
}

#[test]
fn key_name_and_segments() {
    let key = Key::new("project/config/theme").unwrap();
    assert_eq!(key.name(), "theme");
    assert_eq!(key.segments(), vec!["project".to_string(), "config".to_string(), "theme".to_string()]);
    let top = Key::new("project").unwrap();
    assert_eq!(top.name(), "project");
}
