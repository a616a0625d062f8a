use keva_core::config::{Config, TtlConfig};
use keva_core::types::config::{AppConfig, GcConfig, LifecycleConfig, SavedConfig};
use keva_core::types::time::TimeSpan;

#[test]
fn test_ttl_config_defaults() {
    let ttl = TtlConfig::default();
    assert!(ttl.active_to_trash_days.is_none());
    assert_eq!(ttl.trash_to_purge_days, 30);
}

#[test]
fn test_config_paths() {
    let config = Config::new("/test/.keva".to_string());
    assert_eq!(config.db_path(), "/test/.keva/keva.redb");
    assert_eq!(config.blobs_dir(), "/test/.keva/blobs");
    assert_eq!(config.index_dir(), "/test/.keva/index");
}

#[test]
fn store_config_paths_are_under_base() {
    let config = keva_core::types::config::Config {
        base_path: "/base".to_string(),
        saved: SavedConfig { trash_ttl: TimeSpan::from_secs(1), purge_ttl: TimeSpan::from_secs(2) },
    };
    assert_eq!(config.db_path(), "/base/keva.redb");
    assert_eq!(config.content_path(), "/base/content");
    assert_eq!(config.blobs_path(), "/base/blobs");
    assert_eq!(config.thumbnails_path(), "/base/thumbnails");
}

#[test]
fn gc_config_counts_days_in_seconds() {
    let lifecycle = LifecycleConfig { trash_ttl_days: 2, purge_ttl_days: 3 };
    let gc = GcConfig::from(&lifecycle);
    assert_eq!(gc.trash_ttl, TimeSpan::from_secs(2 * 86400));
    assert_eq!(gc.purge_ttl, TimeSpan::from_secs(3 * 86400));
}

#[test]
fn default_app_config_is_valid() {
    let config = AppConfig::default();
    assert!(config.validate().is_empty());
}
