//! The store: the database of keys together with the files of each key.
//! What an operation does to the database is done and verified here; the
//! file work that goes with it (copying attachments, making thumbnails,
//! moving or deleting a key's directory) is the caller's, and each operation
//! hands back the key's directory name for it.
use crate::database::db::{
    attachment_index, renamed_attachments, fresh_value, has_active, has_trashed, kept_or_applied, put_entry, refreshed, renamed_view,
    trashed, with_attachments, with_entry, without_entry, DbView, GcResult, KeyDatabase,
};
use crate::database::error::DatabaseError;
use crate::database::maintenance::gc_done;
use crate::file_storage::{blake3_hex, key_to_path, FileStorage};
use crate::types::config::Config;
use crate::types::key::{keys_view, Key};
use crate::types::paths::spec_join;
use crate::types::text::str_eq;
use crate::types::time::Timestamp;
use crate::types::value::{attachments_view, Attachment, PublicValue, ValueView};
use vstd::prelude::*;
use vstd::utf8::encode_utf8;

verus! {

/// Why a store operation failed.
#[derive(Debug)]
pub enum KevaError {
    /// The database refused the operation.
    Database(DatabaseError),
    /// The destination name is already taken.
    DestinationExists,
}

/// What the counts of a maintenance run are.
#[derive(Debug)]
pub struct MaintenanceOutcome {
    pub keys_trashed: Vec<Key>,
    pub keys_purged: Vec<Key>,
    pub orphaned_files_removed: usize,
}

/// The directory name of a key's files.
pub open spec fn key_hash(k: Seq<char>) -> Seq<char> {
    blake3_hex(encode_utf8(k))
}

/// The public form of a value holds its state, attachments and thumbnail
/// version.
pub open spec fn public_of(p: PublicValue, v: ValueView) -> bool {
    &&& p.metadata.lifecycle_state == v.metadata.lifecycle_state
    &&& attachments_view(p.attachments@) == v.attachments
    &&& p.thumb_version == v.thumb_version
}

/// The thumbnails of a key: its directory name, whether they must be made
/// anew (they were made with an older format), and for each image
/// attachment its file name and the thumbnail's path relative to the
/// thumbnails directory.
#[derive(Debug)]
pub struct ThumbnailPlan {
    pub key_hash: String,
    pub regenerate: bool,
    pub paths: Vec<(String, String)>,
}

/// The store.
pub struct KevaCore {
    base_path: String,
    db: KeyDatabase,
    file: FileStorage,
}

impl KevaCore {
    /// Invariant: the database's.
    pub closed spec fn wf(&self) -> bool {
        self.db.wf()
    }

    /// The content of the database.
    pub closed spec fn db_view(&self) -> DbView {
        self.db@
    }

    /// The database's time-to-live settings.
    pub closed spec fn settings(&self) -> crate::types::config::SavedConfig {
        self.db.settings()
    }

    /// The base data directory.
    pub closed spec fn base(&self) -> Seq<char> {
        self.base_path@
    }

    /// The file layout.
    pub closed spec fn layout(&self) -> FileStorage {
        self.file
    }

    /// Opens the store in `config.base_path` (which must exist): the
    /// database there (see [`KeyDatabase::new`]; `Corrupted` is given only
    /// for stored data that is not sound), and the layout `content/`,
    /// `blobs/`, `thumbnails/`.
    pub fn open(config: Config) -> (r: Result<KevaCore, KevaError>)
        requires
            config.saved.trash_ttl.wf(),
            config.saved.purge_ttl.wf(),
        ensures
            r matches Ok(c) ==> c.wf() && c.base() == config.base_path@ && c.settings()
                == config.saved && c.layout().content_path@ == spec_join(
                config.base_path@,
                "content"@,
            ) && c.layout().blobs_path@ == spec_join(config.base_path@, "blobs"@)
                && c.layout().thumbnails_path@ == spec_join(config.base_path@, "thumbnails"@),
            r matches Err(e) ==> e matches KevaError::Database(d) && (d is Redb || d is Corrupted),
    {
        let base_path = config.base_path.clone();
        let file = FileStorage {
            content_path: config.content_path(),
            blobs_path: config.blobs_path(),
            thumbnails_path: config.thumbnails_path(),
        };
        let db = match KeyDatabase::new(config) {
            Ok(d) => d,
            Err(e) => return Err(KevaError::Database(e)),
        };
        Ok(KevaCore { base_path, db, file })
    }

    /// The base data directory.
    pub fn data_dir(&self) -> (r: &str)
        ensures
            r@ == self.base(),
    {
        self.base_path.as_str()
    }

    /// The file layout.
    pub fn files(&self) -> (r: &FileStorage)
        ensures
            *r == self.layout(),
    {
        &self.file
    }

    /// The path of an attachment of `key` under the data directory
    /// `base_path`: `base_path/blobs/{key_hash}/{filename}`.
    pub fn attachment_blob_path(base_path: &str, key: &Key, filename: &str) -> (r: String)
        ensures
            r@ == spec_join(
                spec_join(spec_join(base_path@, "blobs"@), key_hash(key@)),
                filename@,
            ),
    {
        crate::file_storage::attachment_blob_path(base_path, key, filename)
    }

    /// The value of `key`, in public form.
    pub fn get(&self, key: &Key) -> (r: Result<Option<PublicValue>, KevaError>)
        requires
            self.wf(),
        ensures
            r matches Ok(o) ==> match o {
                Some(v) => self.db_view().entries.contains_key(key@) && public_of(
                    v,
                    self.db_view().entries[key@],
                ),
                None => !self.db_view().entries.contains_key(key@),
            },
            r matches Err(e) ==> e matches KevaError::Database(d) && d is Redb,
    {
        match self.db.get(key) {
            Ok(Some(v)) => Ok(Some(PublicValue::from_latest_value(v))),
            Ok(None) => Ok(None),
            Err(e) => Err(KevaError::Database(e)),
        }
    }

    /// All active keys, oldest use first.
    pub fn active_keys(&self) -> (r: Result<Vec<Key>, KevaError>)
        requires
            self.wf(),
        ensures
            r matches Ok(keys) ==> crate::database::ttl_table::keys_in_order(
                keys@,
                self.db_view().active,
            ),
            r matches Err(e) ==> e matches KevaError::Database(d) && d is Redb,
    {
        match self.db.active_keys() {
            Ok(k) => Ok(k),
            Err(e) => Err(KevaError::Database(e)),
        }
    }

    /// All trashed keys, oldest first.
    pub fn trashed_keys(&self) -> (r: Result<Vec<Key>, KevaError>)
        requires
            self.wf(),
        ensures
            r matches Ok(keys) ==> crate::database::ttl_table::keys_in_order(
                keys@,
                self.db_view().trash,
            ),
            r matches Err(e) ==> e matches KevaError::Database(d) && d is Redb,
    {
        match self.db.trashed_keys() {
            Ok(k) => Ok(k),
            Err(e) => Err(KevaError::Database(e)),
        }
    }

    /// The path of a key's content file.
    pub fn content_path(&self, key: &Key) -> (r: String)
        ensures
            r@ == crate::types::paths::spec_with_extension(
                spec_join(self.layout().content_path@, key_hash(key@)),
                "md"@,
            ),
    {
        let h = key_to_path(key);
        self.file.content_file_path(h.as_str())
    }

    /// The path of an attachment of a key.
    pub fn attachment_path(&self, key: &Key, filename: &str) -> (r: String)
        ensures
            r@ == spec_join(spec_join(self.layout().blobs_path@, key_hash(key@)), filename@),
    {
        let h = key_to_path(key);
        self.file.attachment_path(h.as_str(), filename)
    }

    /// Creates `key` in the database at `now`; returns its public value and
    /// its directory name, where its (empty) content file is to be made.
    pub fn create_entry(&mut self, key: &Key, now: Timestamp) -> (r: Result<
        (PublicValue, String),
        KevaError,
    >)
        requires
            old(self).wf(),
            key.wf(),
            now.wf(),
        ensures
            final(self).wf(),
            final(self).layout() == old(self).layout(),
            final(self).base() == old(self).base(),
            final(self).settings() == old(self).settings(),
            match r {
                Ok((v, h)) => h@ == key_hash(key@) && public_of(v, fresh_value(now))
                    && !old(self).db_view().entries.contains_key(key@) && final(self).db_view()
                    == with_entry(old(self).db_view(), key@, fresh_value(now)),
                Err(KevaError::Database(DatabaseError::AlreadyExists)) => old(self).db_view().entries.contains_key(key@) && final(self).db_view() == old(self).db_view(),
                Err(KevaError::Database(DatabaseError::Redb(_))) => kept_or_applied(
                    old(self).db_view(),
                    final(self).db_view(),
                    !old(self).db_view().entries.contains_key(key@),
                    with_entry(old(self).db_view(), key@, fresh_value(now)),
                ),
                Err(_) => false,
            },
    {
        match self.db.create(key, now) {
            Ok(v) => Ok((PublicValue::from_latest_value(v), key_to_path(key))),
            Err(e) => Err(KevaError::Database(e)),
        }
    }

    /// Marks `key` as used at `now`.
    pub fn touch(&mut self, key: &Key, now: Timestamp) -> (r: Result<PublicValue, KevaError>)
        requires
            old(self).wf(),
            key.wf(),
            now.wf(),
        ensures
            final(self).wf(),
            final(self).layout() == old(self).layout(),
            final(self).base() == old(self).base(),
            final(self).settings() == old(self).settings(),
            match r {
                Ok(v) => has_active(old(self).db_view(), key@) && public_of(
                    v,
                    refreshed(old(self).db_view().entries[key@], now),
                ) && final(self).db_view() == put_entry(
                    old(self).db_view(),
                    key@,
                    refreshed(old(self).db_view().entries[key@], now),
                ),
                Err(KevaError::Database(DatabaseError::NotFound)) => !old(self).db_view().entries.contains_key(key@) && final(self).db_view() == old(self).db_view(),
                Err(KevaError::Database(DatabaseError::Trashed)) => has_trashed(
                    old(self).db_view(),
                    key@,
                ) && final(self).db_view() == old(self).db_view(),
                Err(KevaError::Database(DatabaseError::Redb(_))) => kept_or_applied(
                    old(self).db_view(),
                    final(self).db_view(),
                    has_active(old(self).db_view(), key@),
                    put_entry(
                        old(self).db_view(),
                        key@,
                        refreshed(old(self).db_view().entries[key@], now),
                    ),
                ),
                Err(_) => false,
            },
    {
        match self.db.touch(key, now) {
            Ok(v) => Ok(PublicValue::from_latest_value(v)),
            Err(e) => Err(KevaError::Database(e)),
        }
    }

    /// Records a new attachment of `key` (whose file the caller has copied
    /// into the key's directory) at `now`.
    pub fn add_attachment_entry(&mut self, key: &Key, attachment: Attachment, now: Timestamp) -> (r:
        Result<(), KevaError>)
        requires
            old(self).wf(),
            key.wf(),
            now.wf(),
        ensures
            final(self).wf(),
            final(self).layout() == old(self).layout(),
            final(self).base() == old(self).base(),
            final(self).settings() == old(self).settings(),
            match r {
                Ok(()) => has_active(old(self).db_view(), key@) && final(self).db_view()
                    == put_entry(
                    old(self).db_view(),
                    key@,
                    with_attachments(
                        old(self).db_view().entries[key@],
                        old(self).db_view().entries[key@].attachments.push(attachment@),
                        now,
                    ),
                ),
                Err(KevaError::Database(DatabaseError::NotFound)) => !old(self).db_view().entries.contains_key(key@) && final(self).db_view() == old(self).db_view(),
                Err(KevaError::Database(DatabaseError::Trashed)) => has_trashed(
                    old(self).db_view(),
                    key@,
                ) && final(self).db_view() == old(self).db_view(),
                Err(KevaError::Database(DatabaseError::Redb(_))) => kept_or_applied(
                    old(self).db_view(),
                    final(self).db_view(),
                    has_active(old(self).db_view(), key@),
                    put_entry(
                        old(self).db_view(),
                        key@,
                        with_attachments(
                            old(self).db_view().entries[key@],
                            old(self).db_view().entries[key@].attachments.push(attachment@),
                            now,
                        ),
                    ),
                ),
                Err(_) => false,
            },
    {
        match self.db.add_attachment(key, attachment, now) {
            Ok(()) => Ok(()),
            Err(e) => Err(KevaError::Database(e)),
        }
    }

    /// Records an attachment of `key` (whose file the caller has copied into
    /// the key's directory) at `now`, in place of the first attachment with
    /// its name, if there is one: adding under a taken name replaces.
    pub fn replace_attachment_entry(&mut self, key: &Key, attachment: Attachment, now: Timestamp) -> (r:
        Result<(), KevaError>)
        requires
            old(self).wf(),
            key.wf(),
            now.wf(),
        ensures
            final(self).wf(),
            final(self).layout() == old(self).layout(),
            final(self).base() == old(self).base(),
            final(self).settings() == old(self).settings(),
            match r {
                Ok(()) => has_active(old(self).db_view(), key@) && final(self).db_view()
                    == put_entry(
                    old(self).db_view(),
                    key@,
                    with_attachments(
                        old(self).db_view().entries[key@],
                        crate::database::db::replaced_attachments(old(self).db_view().entries[key@].attachments, attachment@),
                        now,
                    ),
                ),
                Err(KevaError::Database(DatabaseError::NotFound)) => !old(self).db_view().entries.contains_key(key@) && final(self).db_view() == old(self).db_view(),
                Err(KevaError::Database(DatabaseError::Trashed)) => has_trashed(
                    old(self).db_view(),
                    key@,
                ) && final(self).db_view() == old(self).db_view(),
                Err(KevaError::Database(DatabaseError::Redb(_))) => kept_or_applied(
                    old(self).db_view(),
                    final(self).db_view(),
                    has_active(old(self).db_view(), key@),
                    put_entry(
                        old(self).db_view(),
                        key@,
                        with_attachments(
                            old(self).db_view().entries[key@],
                            crate::database::db::replaced_attachments(old(self).db_view().entries[key@].attachments, attachment@),
                            now,
                        ),
                    ),
                ),
                Err(_) => false,
            },
    {
        match self.db.replace_attachment(key, attachment, now) {
            Ok(()) => Ok(()),
            Err(e) => Err(KevaError::Database(e)),
        }
    }

    /// Removes the record of the attachment `filename` of `key` at `now`;
    /// returns the key's directory name, where its file and thumbnail are
    /// to be removed.
    pub fn remove_attachment_entry(&mut self, key: &Key, filename: &str, now: Timestamp) -> (r:
        Result<String, KevaError>)
        requires
            old(self).wf(),
            key.wf(),
            now.wf(),
        ensures
            final(self).wf(),
            final(self).layout() == old(self).layout(),
            final(self).base() == old(self).base(),
            final(self).settings() == old(self).settings(),
            match r {
                Ok(h) => h@ == key_hash(key@) && has_active(old(self).db_view(), key@)
                    && attachment_index(old(self).db_view().entries[key@].attachments, filename@)
                    is Some && final(self).db_view() == put_entry(
                    old(self).db_view(),
                    key@,
                    without_attachment(old(self).db_view().entries[key@], filename@, now),
                ),
                Err(KevaError::Database(DatabaseError::NotFound)) => !old(self).db_view().entries.contains_key(key@) && final(self).db_view() == old(self).db_view(),
                Err(KevaError::Database(DatabaseError::Trashed)) => has_trashed(old(self).db_view(), key@) && final(self).db_view() == old(self).db_view(),
                Err(KevaError::Database(DatabaseError::AttachmentNotFound(n))) => n@ == filename@
                    && has_active(old(self).db_view(), key@) && attachment_index(
                    old(self).db_view().entries[key@].attachments,
                    filename@,
                ) is None && final(self).db_view() == old(self).db_view(),
                Err(KevaError::Database(DatabaseError::Redb(_))) => kept_or_applied(
                    old(self).db_view(),
                    final(self).db_view(),
                    has_active(old(self).db_view(), key@) && attachment_index(
                        old(self).db_view().entries[key@].attachments,
                        filename@,
                    ) is Some,
                    put_entry(
                        old(self).db_view(),
                        key@,
                        without_attachment(old(self).db_view().entries[key@], filename@, now),
                    ),
                ),
                Err(_) => false,
            },
    {
        match self.db.remove_attachment(key, filename, now) {
            Ok(()) => Ok(key_to_path(key)),
            Err(e) => Err(KevaError::Database(e)),
        }
    }

    /// Renames the attachment `old_filename` of `key` to `new_filename` at
    /// `now` in the database. Renaming to the same name does nothing, and a
    /// new name that another attachment has is refused. Returns the key's
    /// directory name when the files are to be renamed.
    pub fn rename_attachment_entry(
        &mut self,
        key: &Key,
        old_filename: &str,
        new_filename: &str,
        now: Timestamp,
    ) -> (r: Result<Option<String>, KevaError>)
        requires
            old(self).wf(),
            key.wf(),
            now.wf(),
        ensures
            final(self).wf(),
            final(self).layout() == old(self).layout(),
            final(self).base() == old(self).base(),
            final(self).settings() == old(self).settings(),
            old_filename@ == new_filename@ ==> (r matches Ok(None) && final(self).db_view() == old(self).db_view()),
            old_filename@ != new_filename@ ==> match r {
                Ok(None) => false,
                Ok(Some(h)) => h@ == key_hash(key@) && has_active(old(self).db_view(), key@)
                    && attachment_index(old(self).db_view().entries[key@].attachments, new_filename@) is None
                    && renamed_attachments(old(self).db_view().entries[key@].attachments, old_filename@, new_filename@) is Some
                    && final(self).db_view() == put_entry(
                    old(self).db_view(),
                    key@,
                    renamed_attachment_value(old(self).db_view().entries[key@], old_filename@, new_filename@, now),
                ),
                Err(KevaError::DestinationExists) => old(self).db_view().entries.contains_key(key@)
                    && attachment_index(old(self).db_view().entries[key@].attachments, new_filename@) is Some
                    && final(self).db_view() == old(self).db_view(),
                Err(KevaError::Database(DatabaseError::NotFound)) => !old(self).db_view().entries.contains_key(key@) && final(self).db_view() == old(self).db_view(),
                Err(KevaError::Database(DatabaseError::Trashed)) => has_trashed(old(self).db_view(), key@)
                    && attachment_index(old(self).db_view().entries[key@].attachments, new_filename@) is None
                    && final(self).db_view() == old(self).db_view(),
                Err(KevaError::Database(DatabaseError::AttachmentNotFound(n))) => n@ == old_filename@
                    && has_active(old(self).db_view(), key@)
                    && attachment_index(old(self).db_view().entries[key@].attachments, new_filename@) is None
                    && renamed_attachments(old(self).db_view().entries[key@].attachments, old_filename@, new_filename@) is None
                    && final(self).db_view() == old(self).db_view(),
                Err(KevaError::Database(DatabaseError::Redb(_))) => kept_or_applied(
                    old(self).db_view(),
                    final(self).db_view(),
                    has_active(old(self).db_view(), key@)
                        && attachment_index(old(self).db_view().entries[key@].attachments, new_filename@) is None
                        && renamed_attachments(old(self).db_view().entries[key@].attachments, old_filename@, new_filename@) is Some,
                    put_entry(
                        old(self).db_view(),
                        key@,
                        renamed_attachment_value(old(self).db_view().entries[key@], old_filename@, new_filename@, now),
                    ),
                ),
                Err(_) => false,
            },
    {
        if str_eq(old_filename, new_filename) {
            return Ok(None);
        }
        let value = match self.db.get(key) {
            Ok(Some(v)) => v,
            Ok(None) => return Err(KevaError::Database(DatabaseError::NotFound)),
            Err(e) => return Err(KevaError::Database(e)),
        };
        if crate::database::db::attachment_position(&value.attachments, new_filename).is_some() {
            return Err(KevaError::DestinationExists);
        }
        match self.db.rename_attachment(key, old_filename, new_filename, now) {
            Ok(()) => Ok(Some(key_to_path(key))),
            Err(e) => Err(KevaError::Database(e)),
        }
    }

    /// Renames `old_key` to `new_key` at `now` in the database. Renaming a
    /// key to itself does nothing, and a new name that is taken is refused.
    /// Returns the two directory names when the files are to be moved.
    pub fn rename_entry(&mut self, old_key: &Key, new_key: &Key, now: Timestamp) -> (r: Result<
        Option<(String, String)>,
        KevaError,
    >)
        requires
            old(self).wf(),
            old_key.wf(),
            new_key.wf(),
            now.wf(),
        ensures
            final(self).wf(),
            final(self).layout() == old(self).layout(),
            final(self).base() == old(self).base(),
            final(self).settings() == old(self).settings(),
            old_key@ == new_key@ ==> (r matches Ok(None) && final(self).db_view() == old(self).db_view()),
            old_key@ != new_key@ ==> match r {
                Ok(None) => false,
                Ok(Some((a, b))) => a@ == key_hash(old_key@) && b@ == key_hash(new_key@)
                    && old(self).db_view().entries.contains_key(old_key@)
                    && !old(self).db_view().entries.contains_key(new_key@)
                    && final(self).db_view() == renamed_view(old(self).db_view(), old_key@, new_key@, now),
                Err(KevaError::DestinationExists) => old(self).db_view().entries.contains_key(new_key@)
                    && final(self).db_view() == old(self).db_view(),
                Err(KevaError::Database(DatabaseError::NotFound)) => !old(self).db_view().entries.contains_key(old_key@)
                    && !old(self).db_view().entries.contains_key(new_key@)
                    && final(self).db_view() == old(self).db_view(),
                Err(KevaError::Database(DatabaseError::Redb(_))) => kept_or_applied(
                    old(self).db_view(),
                    final(self).db_view(),
                    old(self).db_view().entries.contains_key(old_key@)
                        && !old(self).db_view().entries.contains_key(new_key@),
                    renamed_view(old(self).db_view(), old_key@, new_key@, now),
                ),
                Err(_) => false,
            },
    {
        if old_key.same_as(new_key) {
            return Ok(None);
        }
        match self.db.get(new_key) {
            Ok(Some(_)) => return Err(KevaError::DestinationExists),
            Ok(None) => {},
            Err(e) => return Err(KevaError::Database(e)),
        }
        match self.db.rename(old_key, new_key, now) {
            Ok(()) => Ok(Some((key_to_path(old_key), key_to_path(new_key)))),
            Err(e) => Err(KevaError::Database(e)),
        }
    }

    /// Moves `key` to the trash at `now`.
    pub fn trash(&mut self, key: &Key, now: Timestamp) -> (r: Result<(), KevaError>)
        requires
            old(self).wf(),
            key.wf(),
            now.wf(),
        ensures
            final(self).wf(),
            final(self).layout() == old(self).layout(),
            final(self).base() == old(self).base(),
            final(self).settings() == old(self).settings(),
            match r {
                Ok(()) => has_active(old(self).db_view(), key@) && final(self).db_view()
                    == put_entry(
                    old(self).db_view(),
                    key@,
                    trashed(old(self).db_view().entries[key@], now),
                ),
                Err(KevaError::Database(DatabaseError::NotFound)) => !old(self).db_view().entries.contains_key(key@) && final(self).db_view() == old(self).db_view(),
                Err(KevaError::Database(DatabaseError::Trashed)) => has_trashed(
                    old(self).db_view(),
                    key@,
                ) && final(self).db_view() == old(self).db_view(),
                Err(KevaError::Database(DatabaseError::Redb(_))) => kept_or_applied(
                    old(self).db_view(),
                    final(self).db_view(),
                    has_active(old(self).db_view(), key@),
                    put_entry(
                        old(self).db_view(),
                        key@,
                        trashed(old(self).db_view().entries[key@], now),
                    ),
                ),
                Err(_) => false,
            },
    {
        match self.db.trash(key, now) {
            Ok(()) => Ok(()),
            Err(e) => Err(KevaError::Database(e)),
        }
    }

    /// Brings `key` back from the trash, used at `now`.
    pub fn restore(&mut self, key: &Key, now: Timestamp) -> (r: Result<(), KevaError>)
        requires
            old(self).wf(),
            key.wf(),
            now.wf(),
        ensures
            final(self).wf(),
            final(self).layout() == old(self).layout(),
            final(self).base() == old(self).base(),
            final(self).settings() == old(self).settings(),
            match r {
                Ok(()) => has_trashed(old(self).db_view(), key@) && final(self).db_view()
                    == put_entry(
                    old(self).db_view(),
                    key@,
                    refreshed(old(self).db_view().entries[key@], now),
                ),
                Err(KevaError::Database(DatabaseError::NotFound)) => !old(self).db_view().entries.contains_key(key@) && final(self).db_view() == old(self).db_view(),
                Err(KevaError::Database(DatabaseError::NotTrashed)) => has_active(
                    old(self).db_view(),
                    key@,
                ) && final(self).db_view() == old(self).db_view(),
                Err(KevaError::Database(DatabaseError::Redb(_))) => kept_or_applied(
                    old(self).db_view(),
                    final(self).db_view(),
                    has_trashed(old(self).db_view(), key@),
                    put_entry(
                        old(self).db_view(),
                        key@,
                        refreshed(old(self).db_view().entries[key@], now),
                    ),
                ),
                Err(_) => false,
            },
    {
        match self.db.restore(key, now) {
            Ok(()) => Ok(()),
            Err(e) => Err(KevaError::Database(e)),
        }
    }

    /// Deletes `key` from the database for good; returns its directory
    /// name, whose files are to be removed.
    pub fn purge_entry(&mut self, key: &Key) -> (r: Result<String, KevaError>)
        requires
            old(self).wf(),
            key.wf(),
        ensures
            final(self).wf(),
            final(self).layout() == old(self).layout(),
            final(self).base() == old(self).base(),
            final(self).settings() == old(self).settings(),
            match r {
                Ok(h) => h@ == key_hash(key@) && old(self).db_view().entries.contains_key(key@)
                    && final(self).db_view() == without_entry(old(self).db_view(), key@),
                Err(KevaError::Database(DatabaseError::NotFound)) => !old(self).db_view().entries.contains_key(key@) && final(self).db_view() == old(self).db_view(),
                Err(KevaError::Database(DatabaseError::Redb(_))) => kept_or_applied(
                    old(self).db_view(),
                    final(self).db_view(),
                    old(self).db_view().entries.contains_key(key@),
                    without_entry(old(self).db_view(), key@),
                ),
                Err(_) => false,
            },
    {
        match self.db.purge(key) {
            Ok(()) => Ok(key_to_path(key)),
            Err(e) => Err(KevaError::Database(e)),
        }
    }

    /// Collects garbage in the database at `now` (see [`KeyDatabase::gc`]).
    pub fn gc(&mut self, now: Timestamp) -> (r: Result<GcResult, KevaError>)
        requires
            old(self).wf(),
            now.wf(),
        ensures
            final(self).wf(),
            final(self).layout() == old(self).layout(),
            final(self).base() == old(self).base(),
            final(self).settings() == old(self).settings(),
            r is Ok ==> gc_done(old(self).db_view(), final(self).db_view(), now, old(self).settings()),
            r matches Ok(res) ==> crate::database::ttl_table::keys_in_order(
                res.trashed@,
                old(self).db_view().active.filter(
                    |e: Seq<u8>| crate::database::ttl_table::entry_expired(e, now, old(self).settings().trash_ttl),
                ),
            ) && crate::database::ttl_table::keys_in_order(
                res.purged@,
                old(self).db_view().trash.filter(
                    |e: Seq<u8>| crate::database::ttl_table::entry_expired(e, now, old(self).settings().purge_ttl),
                ),
            ),
            r matches Err(e) ==> e matches KevaError::Database(d) && d is Redb,
            r is Err ==> final(self).db_view() == old(self).db_view() || gc_done(
                old(self).db_view(),
                final(self).db_view(),
                now,
                old(self).settings(),
            ),
    {
        match self.db.gc(now) {
            Ok(res) => Ok(res),
            Err(e) => Err(KevaError::Database(e)),
        }
    }

    /// The thumbnails of `key`: its directory name, whether they were made
    /// with an older format (and are to be made anew), and for each image
    /// attachment, in order, its file name and the thumbnail's path relative
    /// to the thumbnails directory.
    pub fn thumbnail_plan(&self, key: &Key) -> (r: Result<ThumbnailPlan, KevaError>)
        requires
            self.wf(),
        ensures
            r matches Ok(p) ==> self.db_view().entries.contains_key(key@) && p.key_hash@
                == key_hash(key@) && p.regenerate == (self.db_view().entries[key@].thumb_version
                < crate::database::db::THUMB_VER) && pairs_view(p.paths@) == image_thumbnails(
                self.db_view().entries[key@].attachments,
                key_hash(key@),
            ),
            r matches Err(e) ==> e matches KevaError::Database(d) && (d is Redb || (d is NotFound
                && !self.db_view().entries.contains_key(key@))),
    {
        let value = match self.db.get(key) {
            Ok(Some(v)) => v,
            Ok(None) => return Err(KevaError::Database(DatabaseError::NotFound)),
            Err(e) => return Err(KevaError::Database(e)),
        };
        let h = key_to_path(key);
        let ghost atts = attachments_view(value.attachments@);
        let mut paths: Vec<(String, String)> = Vec::new();
        let mut i: usize = 0;
        while i < value.attachments.len()
            invariant
                i <= value.attachments@.len(),
                atts == attachments_view(value.attachments@),
                pairs_view(paths@) == image_thumbnails(atts.subrange(0, i as int), h@),
            decreases value.attachments@.len() - i,
        {
            let name = value.attachments[i].filename.as_str();
            proof {
                assert(atts.subrange(0, i + 1).drop_last() =~= atts.subrange(0, i as int));
                assert(atts.subrange(0, i + 1).last() == atts[i as int]);
            }
            if FileStorage::is_supported_image(name) {
                let ghost pre = paths@;
                let rel = FileStorage::thumbnail_rel_path(h.as_str(), name);
                paths.push((value.attachments[i].filename.clone(), rel));
                proof {
                    assert(pairs_view(paths@) =~= pairs_view(pre).push((atts[i as int].0, rel@)));
                }
            }
            i = i + 1;
        }
        proof {
            assert(atts.subrange(0, i as int) =~= atts);
        }
        Ok(ThumbnailPlan {
            key_hash: h,
            regenerate: value.thumb_version < crate::database::db::THUMB_VER,
            paths,
        })
    }

    /// Records that the thumbnails of `key` are of the current format.
    pub fn set_thumb_version(&mut self, key: &Key, version: u32) -> (r: Result<(), KevaError>)
        requires
            old(self).wf(),
            key.wf(),
        ensures
            final(self).wf(),
            final(self).layout() == old(self).layout(),
            final(self).base() == old(self).base(),
            final(self).settings() == old(self).settings(),
            match r {
                Ok(()) => old(self).db_view().entries.contains_key(key@) && final(self).db_view()
                    == put_entry(
                    old(self).db_view(),
                    key@,
                    ValueView { thumb_version: version, ..old(self).db_view().entries[key@] },
                ),
                Err(KevaError::Database(DatabaseError::NotFound)) => !old(self).db_view().entries.contains_key(key@) && final(self).db_view() == old(self).db_view(),
                Err(KevaError::Database(DatabaseError::Redb(_))) => kept_or_applied(
                    old(self).db_view(),
                    final(self).db_view(),
                    old(self).db_view().entries.contains_key(key@),
                    put_entry(
                        old(self).db_view(),
                        key@,
                        ValueView { thumb_version: version, ..old(self).db_view().entries[key@] },
                    ),
                ),
                Err(_) => false,
            },
    {
        match self.db.update_thumb_version(key, version) {
            Ok(()) => Ok(()),
            Err(e) => Err(KevaError::Database(e)),
        }
    }

    /// The directory names of all keys in the database, active and trashed.
    pub fn live_key_hashes(&self) -> (r: Result<Vec<String>, KevaError>)
        requires
            self.wf(),
        ensures
            r matches Ok(hs) ==> forall|h: Seq<char>|
                #[trigger] strings_view(hs@).contains(h) <==> exists|k: Seq<char>|
                    self.db_view().entries.contains_key(k) && h == key_hash(k),
            r matches Err(e) ==> e matches KevaError::Database(d) && d is Redb,
    {
        let active = match self.db.active_keys() {
            Ok(k) => k,
            Err(e) => return Err(KevaError::Database(e)),
        };
        let trashed = match self.db.trashed_keys() {
            Ok(k) => k,
            Err(e) => return Err(KevaError::Database(e)),
        };
        proof {
            self.db.lemma_wf();
            crate::database::maintenance::lemma_index_keys(self.db@, active@, false);
            crate::database::maintenance::lemma_index_keys(self.db@, trashed@, true);
        }
        let mut out: Vec<String> = Vec::new();
        let mut i: usize = 0;
        while i < active.len()
            invariant
                i <= active@.len(),
                strings_view(out@) == keys_view(active@).subrange(0, i as int).map_values(
                    |k: Seq<char>| key_hash(k),
                ),
            decreases active@.len() - i,
        {
            let ghost pre = out@;
            let h = key_to_path(&active[i]);
            out.push(h);
            proof {
                let ka = keys_view(active@);
                assert(strings_view(out@) =~= strings_view(pre).push(h@));
                assert(ka.subrange(0, i + 1) =~= ka.subrange(0, i as int).push(ka[i as int]));
                assert(ka.subrange(0, i + 1).map_values(|k: Seq<char>| key_hash(k)) =~= ka.subrange(
                    0,
                    i as int,
                ).map_values(|k: Seq<char>| key_hash(k)).push(key_hash(ka[i as int])));
                assert(strings_view(out@) =~= ka.subrange(0, i + 1).map_values(
                    |k: Seq<char>| key_hash(k),
                ));
            }
            i = i + 1;
        }
        let ghost na = out@.len();
        let mut j: usize = 0;
        while j < trashed.len()
            invariant
                j <= trashed@.len(),
                na == active@.len(),
                strings_view(out@) == keys_view(active@).map_values(|k: Seq<char>| key_hash(k))
                    + keys_view(trashed@).subrange(0, j as int).map_values(
                    |k: Seq<char>| key_hash(k),
                ),
            decreases trashed@.len() - j,
        {
            let ghost pre = out@;
            let h = key_to_path(&trashed[j]);
            out.push(h);
            proof {
                let kt = keys_view(trashed@);
                let fa = keys_view(active@).map_values(|k: Seq<char>| key_hash(k));
                assert(strings_view(out@) =~= strings_view(pre).push(h@));
                assert(kt.subrange(0, j + 1) =~= kt.subrange(0, j as int).push(kt[j as int]));
                assert(kt.subrange(0, j + 1).map_values(|k: Seq<char>| key_hash(k)) =~= kt.subrange(
                    0,
                    j as int,
                ).map_values(|k: Seq<char>| key_hash(k)).push(key_hash(kt[j as int])));
                assert(strings_view(out@) =~= fa + kt.subrange(0, j + 1).map_values(
                    |k: Seq<char>| key_hash(k),
                ));
            }
            j = j + 1;
        }
        proof {
            assert(keys_view(active@).subrange(0, active@.len() as int) =~= keys_view(active@));
            assert(keys_view(trashed@).subrange(0, trashed@.len() as int) =~= keys_view(trashed@));
            let s = strings_view(out@);
            let ka = keys_view(active@);
            let kt = keys_view(trashed@);
            assert forall|h: Seq<char>| #[trigger] s.contains(h) <==> exists|k: Seq<char>|
                self.db_view().entries.contains_key(k) && h == key_hash(k) by {
                if s.contains(h) {
                    let m = choose|m: int| 0 <= m < s.len() && s[m] == h;
                    if m < ka.len() {
                        assert(ka.contains(ka[m]));
                        assert(self.db_view().entries.contains_key(ka[m]));
                    } else {
                        assert(kt.contains(kt[m - ka.len()]));
                        assert(self.db_view().entries.contains_key(kt[m - ka.len()]));
                    }
                }
                if exists|k: Seq<char>| self.db_view().entries.contains_key(k) && h == key_hash(k) {
                    let k = choose|k: Seq<char>| self.db_view().entries.contains_key(k) && h
                        == key_hash(k);
                    if self.db_view().entries[k].metadata.lifecycle_state is Active {
                        assert(ka.contains(k));
                        let m = choose|m: int| 0 <= m < ka.len() && ka[m] == k;
                        assert(s[m] == h);
                    } else {
                        assert(kt.contains(k));
                        let m = choose|m: int| 0 <= m < kt.len() && kt[m] == k;
                        assert(s[ka.len() + m] == h);
                    }
                }
            }
        }
        Ok(out)
    }
}

/// A value without its first attachment named `name`, modified at `now`.
pub open spec fn without_attachment(v: ValueView, name: Seq<char>, now: Timestamp) -> ValueView {
    with_attachments(v, v.attachments.remove(attachment_index(v.attachments, name)->0), now)
}

/// A value whose attachment `from` is renamed `to`, modified at `now`.
pub open spec fn renamed_attachment_value(
    v: ValueView,
    from: Seq<char>,
    to: Seq<char>,
    now: Timestamp,
) -> ValueView {
    with_attachments(v, renamed_attachments(v.attachments, from, to)->0, now)
}

/// The texts of a sequence of pairs of strings.
pub open spec fn pairs_view(v: Seq<(String, String)>) -> Seq<(Seq<char>, Seq<char>)> {
    v.map_values(|p: (String, String)| (p.0@, p.1@))
}

/// For each image attachment, in order: its file name and its thumbnail's
/// path relative to the thumbnails directory.
pub open spec fn image_thumbnails(atts: Seq<(Seq<char>, u64)>, hash: Seq<char>) -> Seq<
    (Seq<char>, Seq<char>),
>
    decreases atts.len(),
{
    if atts.len() == 0 {
        Seq::empty()
    } else {
        let rest = image_thumbnails(atts.drop_last(), hash);
        let name = atts.last().0;
        if crate::file_storage::is_image_name(name) {
            rest.push((name, spec_join(hash, name + ".thumb"@)))
        } else {
            rest
        }
    }
}

/// Whether an attachment is an image thumbnails are made of.
pub open spec fn is_image_attachment(a: (Seq<char>, u64)) -> bool {
    crate::file_storage::is_image_name(a.0)
}

/// The thumbnail entry of an attachment: its name and the thumbnail's path
/// under the key's directory `hash`.
pub open spec fn thumbnail_entry(a: (Seq<char>, u64), hash: Seq<char>) -> (Seq<char>, Seq<char>) {
    (a.0, spec_join(hash, a.0 + ".thumb"@))
}

/// The thumbnail plan lists every image attachment and nothing else, in
/// attachment order: it is the image attachments, each with its thumbnail
/// path; so it has as many entries as there are image attachments, and each
/// image attachment's entry is in it.
pub proof fn lemma_thumbnails_of_every_image(atts: Seq<(Seq<char>, u64)>, hash: Seq<char>)
    ensures
        image_thumbnails(atts, hash) == atts.filter(|a: (Seq<char>, u64)| is_image_attachment(a)).map_values(
            |a: (Seq<char>, u64)| thumbnail_entry(a, hash),
        ),
        image_thumbnails(atts, hash).len() == atts.filter(
            |a: (Seq<char>, u64)| is_image_attachment(a),
        ).len(),
        forall|i: int|
            0 <= i < atts.len() && is_image_attachment(#[trigger] atts[i]) ==> image_thumbnails(
                atts,
                hash,
            ).contains(thumbnail_entry(atts[i], hash)),
    decreases atts.len(),
{
    let p = |a: (Seq<char>, u64)| is_image_attachment(a);
    let f = |a: (Seq<char>, u64)| thumbnail_entry(a, hash);
    reveal(Seq::filter);
    if atts.len() > 0 {
        lemma_thumbnails_of_every_image(atts.drop_last(), hash);
        let fr = atts.drop_last().filter(p);
        if p(atts.last()) {
            assert(atts.filter(p) == fr.push(atts.last()));
            assert(fr.push(atts.last()).map_values(f) =~= fr.map_values(f).push(f(atts.last())));
        } else {
            assert(atts.filter(p) == fr);
        }
    } else {
        assert(atts.filter(p).map_values(f) =~= Seq::<(Seq<char>, Seq<char>)>::empty());
    }
    assert forall|i: int|
        0 <= i < atts.len() && is_image_attachment(#[trigger] atts[i]) implies image_thumbnails(
        atts,
        hash,
    ).contains(thumbnail_entry(atts[i], hash)) by {
        atts.lemma_filter_contains(p, i);
        let fl = atts.filter(p);
        let j = choose|j: int| 0 <= j < fl.len() && fl[j] == atts[i];
        assert(fl.map_values(f)[j] == thumbnail_entry(atts[i], hash));
    }
}

/// The texts of a sequence of strings.
pub open spec fn strings_view(v: Seq<String>) -> Seq<Seq<char>> {
    v.map_values(|s: String| s@)
}

/// The names among `listed` that are not among `live`, in order: the files
/// that belong to no key.
pub fn orphans(listed: &Vec<String>, live: &Vec<String>) -> (r: Vec<String>)
    ensures
        strings_view(r@) == strings_view(listed@).filter(
            |h: Seq<char>| !strings_view(live@).contains(h),
        ),
{
    let ghost lv = strings_view(listed@);
    let ghost pred = |h: Seq<char>| !strings_view(live@).contains(h);
    let mut out: Vec<String> = Vec::new();
    let mut i: usize = 0;
    while i < listed.len()
        invariant
            i <= listed@.len(),
            lv == strings_view(listed@),
            pred == (|h: Seq<char>| !strings_view(live@).contains(h)),
            strings_view(out@) == lv.subrange(0, i as int).filter(pred),
        decreases listed@.len() - i,
    {
        let mut found = false;
        let mut j: usize = 0;
        while j < live.len()
            invariant
                i < listed@.len(),
                j <= live@.len(),
                found == strings_view(live@).subrange(0, j as int).contains(listed@[i as int]@),
            decreases live@.len() - j,
        {
            if str_eq(live[j].as_str(), listed[i].as_str()) {
                found = true;
            }
            proof {
                let sv = strings_view(live@);
                let x = listed@[i as int]@;
                let s0 = sv.subrange(0, j as int);
                let s1 = sv.subrange(0, j + 1);
                if s1.contains(x) && !s0.contains(x) {
                    let m = choose|m: int| 0 <= m < s1.len() && s1[m] == x;
                    if m < j {
                        assert(s0[m] == x);
                    }
                }
                if s0.contains(x) {
                    let m = choose|m: int| 0 <= m < s0.len() && s0[m] == x;
                    assert(s1[m] == x);
                }
                if sv[j as int] == x {
                    assert(s1[j as int] == x);
                }
            }
            j = j + 1;
        }
        proof {
            assert(strings_view(live@).subrange(0, j as int) =~= strings_view(live@));
            assert(lv.subrange(0, i + 1).drop_last() =~= lv.subrange(0, i as int));
            assert(lv.subrange(0, i + 1).last() == lv[i as int]);
            reveal(Seq::filter);
            assert(lv.subrange(0, i + 1).filter(pred) == if pred(lv[i as int]) {
                lv.subrange(0, i as int).filter(pred).push(lv[i as int])
            } else {
                lv.subrange(0, i as int).filter(pred)
            });
        }
        if !found {
            let ghost pre = out@;
            out.push(listed[i].clone());
            proof {
                assert(strings_view(out@) =~= strings_view(pre).push(lv[i as int]));
            }
        }
        i = i + 1;
    }
    proof {
        assert(lv.subrange(0, i as int) =~= lv);
    }
    out
}

} // verus!
