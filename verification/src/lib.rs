//! Verified core of keva, a clipboard store of named values.
//! - `types`: keys, timestamps, the encoding of TTL index entries, stored
//!   values and their byte format, and configuration;
//! - `database`: the redb database of keys, its two TTL indexes, garbage
//!   collection and the record of when maintenance last ran;
//! - `file_storage`: where each key's files live;
//! - `keva`: the store (database and file layout) as the application uses it;
//! - `search`, `fuzzy`: bookkeeping of the fuzzy key search, and fuzzy
//!   matching of one text;
//! - `model`, `config`, `error`: path-shaped keys, clipboard values and their
//!   lifecycle timestamps, store settings, error kinds;
//! - `ui`, `window`: the state and layout of the application window, and
//!   how it answers the messages the platform sends it.
pub mod types;
pub mod error;
pub mod model;
pub mod config;
pub mod database;
pub mod file_storage;
pub mod search;
pub mod fuzzy;
pub mod keva;
pub mod ui;
pub mod window;
