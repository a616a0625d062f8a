//! Configuration: the user-facing settings (`config.toml`), the paths of the
//! store under its base directory, and the TTLs handed to maintenance.
use crate::types::paths::{join, spec_join};
use crate::types::time::TimeSpan;
use vstd::prelude::*;

verus! {

/// Core configuration for opening a store.
#[derive(Debug, Clone)]
pub struct Config {
    pub base_path: String,
    pub saved: SavedConfig,
}

/// Settings that are persisted with the store.
#[derive(Debug, Clone, Copy)]
pub struct SavedConfig {
    pub trash_ttl: TimeSpan,
    pub purge_ttl: TimeSpan,
}

impl Config {
    /// Path of the database file.
    pub fn db_path(&self) -> (r: String)
        ensures
            r@ == spec_join(self.base_path@, "keva.redb"@),
    {
        join(self.base_path.as_str(), "keva.redb")
    }

    /// Path of the content directory.
    pub fn content_path(&self) -> (r: String)
        ensures
            r@ == spec_join(self.base_path@, "content"@),
    {
        join(self.base_path.as_str(), "content")
    }

    /// Path of the attachments directory.
    pub fn blobs_path(&self) -> (r: String)
        ensures
            r@ == spec_join(self.base_path@, "blobs"@),
    {
        join(self.base_path.as_str(), "blobs")
    }

    /// Path of the thumbnails directory.
    pub fn thumbnails_path(&self) -> (r: String)
        ensures
            r@ == spec_join(self.base_path@, "thumbnails"@),
    {
        join(self.base_path.as_str(), "thumbnails")
    }
}

/// Theme preference.
#[derive(Debug, Clone, Copy, PartialEq, Eq)]
pub enum Theme {
    Dark,
    Light,
    System,
}

impl Default for Theme {
    fn default() -> (r: Self)
        ensures
            r == Theme::System,
    {
        Theme::System
    }
}

impl Theme {
    /// The theme's name as written in the configuration file.
    pub fn as_str(&self) -> (r: &'static str)
        ensures
            r@ == (match *self {
                Theme::Dark => "dark"@,
                Theme::Light => "light"@,
                Theme::System => "system"@,
            }),
    {
        match self {
            Theme::Dark => "dark",
            Theme::Light => "light",
            Theme::System => "system",
        }
    }
}

/// General application settings.
#[derive(Debug, Clone, Copy, PartialEq, Eq)]
pub struct GeneralConfig {
    pub theme: Theme,
    pub show_tray_icon: bool,
}

impl Default for GeneralConfig {
    fn default() -> (r: Self)
        ensures
            r == (GeneralConfig { theme: Theme::System, show_tray_icon: true }),
    {
        GeneralConfig { theme: Theme::default(), show_tray_icon: default_true() }
    }
}

/// Keyboard shortcut settings.
#[derive(Debug)]
pub struct ShortcutsConfig {
    pub global_shortcut: String,
}

impl Clone for ShortcutsConfig {
    fn clone(&self) -> (r: Self)
        ensures
            r == *self,
    {
        ShortcutsConfig { global_shortcut: self.global_shortcut.clone() }
    }
}

impl Default for ShortcutsConfig {
    fn default() -> (r: Self)
        ensures
            r.global_shortcut@ == "Ctrl+Alt+K"@,
    {
        ShortcutsConfig { global_shortcut: default_global_shortcut() }
    }
}

/// The default global shortcut.
pub fn default_global_shortcut() -> (r: String)
    ensures
        r@ == "Ctrl+Alt+K"@,
{
    "Ctrl+Alt+K".to_owned()
}

/// Lifecycle settings, in days.
#[derive(Debug, Clone, Copy, PartialEq, Eq)]
pub struct LifecycleConfig {
    pub trash_ttl_days: u32,
    pub purge_ttl_days: u32,
}

impl Default for LifecycleConfig {
    fn default() -> (r: Self)
        ensures
            r == (LifecycleConfig { trash_ttl_days: 30, purge_ttl_days: 7 }),
    {
        LifecycleConfig {
            trash_ttl_days: default_trash_ttl_days(),
            purge_ttl_days: default_purge_ttl_days(),
        }
    }
}

/// Default days before an unused key moves to the trash.
pub fn default_trash_ttl_days() -> (r: u32)
    ensures
        r == 30,
{
    30
}

/// Default days before a trashed key is purged.
pub fn default_purge_ttl_days() -> (r: u32)
    ensures
        r == 7,
{
    7
}

/// Default of switches that are on unless set.
pub fn default_true() -> (r: bool)
    ensures
        r,
{
    true
}

/// User-facing application configuration.
#[derive(Debug)]
pub struct AppConfig {
    pub general: GeneralConfig,
    pub shortcuts: ShortcutsConfig,
    pub lifecycle: LifecycleConfig,
}

impl Clone for AppConfig {
    fn clone(&self) -> (r: Self)
        ensures
            r == *self,
    {
        AppConfig {
            general: self.general,
            shortcuts: self.shortcuts.clone(),
            lifecycle: self.lifecycle,
        }
    }
}

impl Default for AppConfig {
    fn default() -> (r: Self)
        ensures
            r.general == GeneralConfig::default_spec(),
            r.shortcuts.global_shortcut@ == "Ctrl+Alt+K"@,
            r.lifecycle == (LifecycleConfig { trash_ttl_days: 30, purge_ttl_days: 7 }),
    {
        AppConfig {
            general: GeneralConfig::default(),
            shortcuts: ShortcutsConfig::default(),
            lifecycle: LifecycleConfig::default(),
        }
    }
}

impl GeneralConfig {
    /// The default general settings.
    pub open spec fn default_spec() -> GeneralConfig {
        GeneralConfig { theme: Theme::System, show_tray_icon: true }
    }
}

/// The messages that `AppConfig::validate` gives for lifecycle settings `l`.
pub open spec fn spec_validation_errors(l: LifecycleConfig) -> Seq<Seq<char>> {
    let a = if l.trash_ttl_days == 0 {
        seq!["trash_ttl_days must be at least 1"@]
    } else {
        Seq::empty()
    };
    let b = if l.purge_ttl_days == 0 {
        seq!["purge_ttl_days must be at least 1"@]
    } else {
        Seq::empty()
    };
    a + b
}

impl AppConfig {
    /// The validation errors of the configuration; empty when it is valid.
    pub fn validate(&self) -> (r: Vec<String>)
        ensures
            r@.map_values(|s: String| s@) == spec_validation_errors(self.lifecycle),
    {
        let mut errors: Vec<String> = Vec::new();
        if self.lifecycle.trash_ttl_days == 0 {
            errors.push("trash_ttl_days must be at least 1".to_owned());
        }
        let ghost first = errors@.map_values(|s: String| s@);
        if self.lifecycle.purge_ttl_days == 0 {
            errors.push("purge_ttl_days must be at least 1".to_owned());
        }
        proof {
            assert(errors@.map_values(|s: String| s@) =~= spec_validation_errors(self.lifecycle));
        }
        errors
    }

    /// The configuration with each invalid (zero) TTL replaced by its default.
    pub fn with_defaults_for_invalid(&self) -> (r: Self)
        ensures
            r.general == self.general,
            r.shortcuts == self.shortcuts,
            r.lifecycle.trash_ttl_days == (if self.lifecycle.trash_ttl_days == 0 {
                30
            } else {
                self.lifecycle.trash_ttl_days
            }),
            r.lifecycle.purge_ttl_days == (if self.lifecycle.purge_ttl_days == 0 {
                7
            } else {
                self.lifecycle.purge_ttl_days
            }),
            spec_validation_errors(r.lifecycle).len() == 0,
    {
        let defaults = Self::default();
        AppConfig {
            general: self.general,
            shortcuts: self.shortcuts.clone(),
            lifecycle: LifecycleConfig {
                trash_ttl_days: if self.lifecycle.trash_ttl_days == 0 {
                    defaults.lifecycle.trash_ttl_days
                } else {
                    self.lifecycle.trash_ttl_days
                },
                purge_ttl_days: if self.lifecycle.purge_ttl_days == 0 {
                    defaults.lifecycle.purge_ttl_days
                } else {
                    self.lifecycle.purge_ttl_days
                },
            },
        }
    }
}

/// Seconds in a day.
pub const SECS_PER_DAY: u64 = 86400;

/// TTLs handed to maintenance.
#[derive(Debug, Clone, Copy)]
pub struct GcConfig {
    pub trash_ttl: TimeSpan,
    pub purge_ttl: TimeSpan,
}

impl GcConfig {
    /// The TTLs of lifecycle settings, each a whole number of days.
    pub fn from(config: &LifecycleConfig) -> (r: Self)
        ensures
            r.trash_ttl == (TimeSpan { secs: (config.trash_ttl_days * SECS_PER_DAY) as u64, nanos: 0 }),
            r.purge_ttl == (TimeSpan { secs: (config.purge_ttl_days * SECS_PER_DAY) as u64, nanos: 0 }),
    {
        GcConfig {
            trash_ttl: TimeSpan::from_secs(config.trash_ttl_days as u64 * SECS_PER_DAY),
            purge_ttl: TimeSpan::from_secs(config.purge_ttl_days as u64 * SECS_PER_DAY),
        }
    }
}

} // verus!
