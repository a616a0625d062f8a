//! Store configuration: data directory, delete style, TTLs and size thresholds.
use crate::types::paths::{join, spec_join};
use vstd::prelude::*;

verus! {

/// Delete behaviour.
#[derive(Debug, Clone, Copy, PartialEq, Eq)]
pub enum DeleteStyle {
    /// Deletions move items to the trash.
    Soft,
    /// Deletions remove items at once.
    Immediate,
}

impl Default for DeleteStyle {
    fn default() -> (r: Self)
        ensures
            r == DeleteStyle::Soft,
    {
        DeleteStyle::Soft
    }
}

/// Time-to-live settings, in days.
#[derive(Debug, Clone, Copy, PartialEq, Eq)]
pub struct TtlConfig {
    /// Days before active items move to the trash (`None`: never).
    pub active_to_trash_days: Option<u32>,
    /// Days before trashed items are purged.
    pub trash_to_purge_days: u32,
}

impl Default for TtlConfig {
    fn default() -> (r: Self)
        ensures
            r.active_to_trash_days is None,
            r.trash_to_purge_days == 30,
    {
        TtlConfig { active_to_trash_days: None, trash_to_purge_days: 30 }
    }
}

/// Size from which data is stored as a blob rather than inline (100 KiB).
pub const DEFAULT_BLOB_THRESHOLD: u64 = 102400;

/// Size from which a file counts as large (256 MiB).
pub const DEFAULT_LARGE_FILE_THRESHOLD: u64 = 268435456;

/// Main configuration.
#[derive(Debug, Clone)]
pub struct Config {
    /// Base directory of the data.
    pub data_dir: String,
    pub delete_style: DeleteStyle,
    pub ttl: TtlConfig,
    /// Size from which data is stored as a blob (bytes).
    pub blob_threshold: u64,
    /// Size from which a file counts as large (bytes).
    pub large_file_threshold: u64,
}

impl Config {
    /// A configuration with default settings under `data_dir`.
    pub fn new(data_dir: String) -> (r: Self)
        ensures
            r.data_dir == data_dir,
            r.delete_style == DeleteStyle::Soft,
            r.ttl.active_to_trash_days is None,
            r.ttl.trash_to_purge_days == 30,
            r.blob_threshold == DEFAULT_BLOB_THRESHOLD,
            r.large_file_threshold == DEFAULT_LARGE_FILE_THRESHOLD,
    {
        Config {
            data_dir,
            delete_style: DeleteStyle::default(),
            ttl: TtlConfig::default(),
            blob_threshold: DEFAULT_BLOB_THRESHOLD,
            large_file_threshold: DEFAULT_LARGE_FILE_THRESHOLD,
        }
    }

    /// Path of the database file.
    pub fn db_path(&self) -> (r: String)
        ensures
            r@ == spec_join(self.data_dir@, "keva.redb"@),
    {
        join(self.data_dir.as_str(), "keva.redb")
    }

    /// Path of the blobs directory.
    pub fn blobs_dir(&self) -> (r: String)
        ensures
            r@ == spec_join(self.data_dir@, "blobs"@),
    {
        join(self.data_dir.as_str(), "blobs")
    }

    /// Path of the search index directory.
    pub fn index_dir(&self) -> (r: String)
        ensures
            r@ == spec_join(self.data_dir@, "index"@),
    {
        join(self.data_dir.as_str(), "index")
    }

    /// Path of the configuration file.
    pub fn config_file_path(&self) -> (r: String)
        ensures
            r@ == spec_join(self.data_dir@, "config.json"@),
    {
        join(self.data_dir.as_str(), "config.json")
    }

    /// The configuration with delete style `style`.
    pub fn with_delete_style(self, style: DeleteStyle) -> (r: Self)
        ensures
            r == (Config { delete_style: style, ..self }),
    {
        let mut c = self;
        c.delete_style = style;
        c
    }

    /// The configuration with TTL settings `ttl`.
    pub fn with_ttl(self, ttl: TtlConfig) -> (r: Self)
        ensures
            r == (Config { ttl, ..self }),
    {
        let mut c = self;
        c.ttl = ttl;
        c
    }

    /// The configuration with blob threshold `threshold`.
    pub fn with_blob_threshold(self, threshold: u64) -> (r: Self)
        ensures
            r == (Config { blob_threshold: threshold, ..self }),
    {
        let mut c = self;
        c.blob_threshold = threshold;
        c
    }

    /// The configuration with large-file threshold `threshold`.
    pub fn with_large_file_threshold(self, threshold: u64) -> (r: Self)
        ensures
            r == (Config { large_file_threshold: threshold, ..self }),
    {
        let mut c = self;
        c.large_file_threshold = threshold;
        c
    }
}

} // verus!
