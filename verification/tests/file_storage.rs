use keva_core::file_storage::{key_to_path, FileStorage};
use keva_core::keva::KevaCore;
use keva_core::types::key::Key;
use std::path::Path;
use tempfile::{tempdir, TempDir};

fn create_test_storage() -> (FileStorage, TempDir) {
    let temp_dir = tempdir().unwrap();
    let base = temp_dir.path();
    let storage = FileStorage {
        content_path: base.join("content").to_str().unwrap().to_string(),
        blobs_path: base.join("blobs").to_str().unwrap().to_string(),
        thumbnails_path: base.join("thumbnails").to_str().unwrap().to_string(),
    };
    (storage, temp_dir)
}

#[test]
fn test_content_file_path_has_md_extension() {
    let (storage, _temp) = create_test_storage();
    let key_hash = "abc123";

    let path = storage.content_file_path(key_hash);
    assert_eq!(Path::new(&path).extension().unwrap(), "md");
}

#[test]
fn test_attachment_path_format() {
    let (storage, _temp) = create_test_storage();
    let key_hash = "abc123";

    let path = storage.attachment_path(key_hash, "test.txt");
    let path = Path::new(&path);
    assert!(path.ends_with("blobs/abc123/test.txt") || path.ends_with("blobs\\abc123\\test.txt"));
}

#[test]
fn test_thumbnail_path_format() {
    let (storage, _temp) = create_test_storage();
    let key_hash = "abc123";

    let path = storage.thumbnail_path(key_hash, "image.png");
    let path = Path::new(&path);
    assert!(
        path.ends_with("thumbnails/abc123/image.png.thumb")
            || path.ends_with("thumbnails\\abc123\\image.png.thumb")
    );
}

#[test]
fn test_is_supported_image_png() {
    assert!(FileStorage::is_supported_image("image.png"));
    assert!(FileStorage::is_supported_image("image.PNG"));
}

#[test]
fn test_is_supported_image_jpeg() {
    assert!(FileStorage::is_supported_image("photo.jpg"));
    assert!(FileStorage::is_supported_image("photo.jpeg"));
    assert!(FileStorage::is_supported_image("photo.JPEG"));
}

#[test]
fn test_is_supported_image_other_formats() {
    assert!(FileStorage::is_supported_image("image.gif"));
    assert!(FileStorage::is_supported_image("image.webp"));
}

#[test]
fn test_is_supported_image_unsupported() {
    assert!(!FileStorage::is_supported_image("document.pdf"));
    assert!(!FileStorage::is_supported_image("video.mp4"));
    assert!(!FileStorage::is_supported_image("file.txt"));
    assert!(!FileStorage::is_supported_image("noext"));
}

#[test]
fn is_supported_image_uses_last_dot_and_mixed_case() {
    assert!(FileStorage::is_supported_image("archive.tar.WebP"));
    assert!(!FileStorage::is_supported_image("image.png.txt"));
    assert!(!FileStorage::is_supported_image("image."));
    // A name without a dot has no extension.
    assert!(!FileStorage::is_supported_image("png"));
    assert!(!FileStorage::is_supported_image("JPEG"));
}

#[test]
fn content_file_path_is_exact() {
    let storage = FileStorage {
        content_path: "/data/content".to_string(),
        blobs_path: "/data/blobs".to_string(),
        thumbnails_path: "/data/thumbnails".to_string(),
    };
    assert_eq!(storage.content_file_path("abc123"), "/data/content/abc123.md");
    assert_eq!(storage.attachment_path("abc123", "a.txt"), "/data/blobs/abc123/a.txt");
    assert_eq!(
        storage.thumbnail_path("abc123", "a.png"),
        "/data/thumbnails/abc123/a.png.thumb"
    );
    assert_eq!(FileStorage::thumbnail_rel_path("abc123", "a.png"), "abc123/a.png.thumb");
}

#[test]
fn key_hash_is_blake3_hex_of_key_text() {
    let key = Key::try_from("project/config").unwrap();
    let expected = blake3::hash("project/config".as_bytes()).to_hex().to_string();
    let h = key_to_path(&key);
    assert_eq!(h, expected);
    assert_eq!(h.len(), 64);
    assert!(h.chars().all(|c| c.is_ascii_hexdigit() && !c.is_ascii_uppercase()));
    let other = key_to_path(&Key::try_from("project/other").unwrap());
    assert_ne!(h, other);
}

#[test]
fn attachment_blob_path_joins_base_hash_and_name() {
    let key = Key::try_from("k").unwrap();
    let h = key_to_path(&key);
    let p = KevaCore::attachment_blob_path("/base", &key, "f.txt");
    assert_eq!(p, format!("/base/blobs/{}/f.txt", h));
}

#[test]
fn blob_name_splits_the_blake3_digest() {
    let (dir, file) = keva_core::file_storage::blob_name(b"hello blob");
    let hex = blake3::hash(b"hello blob").to_hex().to_string();
    assert_eq!(dir.len(), 2);
    assert_eq!(file.len(), 62);
    assert_eq!(format!("{}{}", dir, file), hex);
    assert_eq!(keva_core::file_storage::blob_dirs("a"), ("a".to_string(), "".to_string()));
    assert_eq!(keva_core::file_storage::blob_dirs("abcd"), ("ab".to_string(), "cd".to_string()));
}
