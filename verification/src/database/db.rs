//! The store's database: each key maps to its value, and two TTL indexes
//! record when each active key was last used and when each trashed key was
//! trashed. Every operation runs in one redb write transaction.
use crate::database::error::DatabaseError;
use crate::database::store::{
    abort, begin_read, begin_write, commit, db_write_free, wt_origin, db_main, db_meta, db_same, db_ttl, main_get, main_insert,
    main_open, main_remove, meta_insert, read_main_all, read_main_get, read_meta_get, read_ttl_all,
    read_ttl_contains, redb_create, rt_main, rt_ttl, sorted_strict, wt_main, wt_meta, wt_ttl,
};
use crate::database::maintenance::{
    gc_done, gc_entries, lemma_due_keys, maintenance_due, maintenance_due_for, purge_due,
    recorded_run, trash_due, MaintenanceMetadata, METADATA_KEY_MAINTENANCE,
};
use crate::database::ttl_table::{
    entry_expired, entry_key, entry_keys, entry_time, keys_in_order, keys_view, ttl_entry_wf,
    ttl_wf, TtlTable,
};
use crate::types::config::{Config, SavedConfig};
use crate::types::key::{valid_key_chars, Key};
use crate::types::text::str_eq;
use crate::types::time::{TimeSpan, Timestamp};
use crate::types::ttl_key::{same_bytes, ttl_bytes, TtlKey};
use crate::types::value::{
    attachments_view, metadata_wf, value_decode, Attachment, LifecycleState, Metadata, Value,
    ValueView, VersionedValue,
};
use vstd::prelude::*;

verus! {

/// Table of the index of active keys (counting down to the trash).
pub const ACTIVE_EXPIRY: &'static str = "ttl_trashed";

/// Table of the index of trashed keys (counting down to purging).
pub const TRASH_EXPIRY: &'static str = "ttl_purged";

/// The thumbnail format version that new keys start with.
pub const THUMB_VER: u32 = 1;

/// The mathematical content of the database.
pub struct DbView {
    /// Each key with its value.
    pub entries: Map<Seq<char>, ValueView>,
    /// Index entries of active keys.
    pub active: Set<Seq<u8>>,
    /// Index entries of trashed keys.
    pub trash: Set<Seq<u8>>,
    /// Metadata records.
    pub meta: Map<Seq<char>, Seq<char>>,
}

/// The values that stored bytes decode to.
pub open spec fn decode_all(m: Map<Seq<char>, Seq<u8>>) -> Map<Seq<char>, ValueView> {
    Map::new(|k: Seq<char>| m.contains_key(k), |k: Seq<char>| value_decode(m[k])->0)
}

/// Every stored key is valid and every stored value decodes.
pub open spec fn main_wf(m: Map<Seq<char>, Seq<u8>>) -> bool {
    forall|k: Seq<char>|
        #[trigger] m.contains_key(k) ==> valid_key_chars(k) && value_decode(m[k]) is Some
            && metadata_wf(value_decode(m[k])->0.metadata)
}

/// The index entry of a key in a lifecycle state.
pub open spec fn state_entry(k: Seq<char>, s: LifecycleState) -> Seq<u8> {
    match s {
        LifecycleState::Active { last_accessed } => ttl_bytes(last_accessed, k),
        LifecycleState::Trash { trashed_at } => ttl_bytes(trashed_at, k),
    }
}

/// The indexes agree with the values: each key has exactly the index entry
/// of its lifecycle state, in the index of that state.
pub open spec fn consistent(v: DbView) -> bool {
    &&& forall|k: Seq<char>|
        #[trigger] v.entries.contains_key(k) ==> match v.entries[k].metadata.lifecycle_state {
            LifecycleState::Active { last_accessed } => v.active.contains(ttl_bytes(last_accessed, k)),
            LifecycleState::Trash { trashed_at } => v.trash.contains(ttl_bytes(trashed_at, k)),
        }
    &&& forall|e: Seq<u8>|
        #[trigger] v.active.contains(e) ==> v.entries.contains_key(entry_key(e))
            && v.entries[entry_key(e)].metadata.lifecycle_state == (LifecycleState::Active {
            last_accessed: entry_time(e),
        })
    &&& forall|e: Seq<u8>|
        #[trigger] v.trash.contains(e) ==> v.entries.contains_key(entry_key(e))
            && v.entries[entry_key(e)].metadata.lifecycle_state == (LifecycleState::Trash {
            trashed_at: entry_time(e),
        })
}

/// The content of a redb database.
pub open spec fn view_of(d: redb::Database) -> DbView {
    DbView {
        entries: decode_all(db_main(d)),
        active: db_ttl(d, ACTIVE_EXPIRY@),
        trash: db_ttl(d, TRASH_EXPIRY@),
        meta: db_meta(d),
    }
}

/// Databases with the same contents have the same view, and the same
/// raw tables.
pub proof fn lemma_same_view(a: redb::Database, b: redb::Database)
    requires
        db_same(a, b),
    ensures
        view_of(a) == view_of(b),
        db_main(a) == db_main(b),
        db_ttl(a, ACTIVE_EXPIRY@) == db_ttl(b, ACTIVE_EXPIRY@),
        db_ttl(a, TRASH_EXPIRY@) == db_ttl(b, TRASH_EXPIRY@),
{
    assert(db_ttl(a, ACTIVE_EXPIRY@) == db_ttl(b, ACTIVE_EXPIRY@));
    assert(db_ttl(a, TRASH_EXPIRY@) == db_ttl(b, TRASH_EXPIRY@));
}

/// The content that a write transaction sees.
pub open spec fn txn_view(t: redb::WriteTransaction) -> DbView {
    DbView {
        entries: decode_all(wt_main(t)),
        active: wt_ttl(t, ACTIVE_EXPIRY@),
        trash: wt_ttl(t, TRASH_EXPIRY@),
        meta: wt_meta(t),
    }
}

/// The database.
pub struct KeyDatabase {
    db: redb::Database,
    saved: SavedConfig,
}

/// Result of garbage collection.
#[derive(Debug)]
pub struct GcResult {
    /// Keys moved from active to trash.
    pub trashed: Vec<Key>,
    /// Keys deleted for good.
    pub purged: Vec<Key>,
}

impl KeyDatabase {
    /// The content of the database.
    pub closed spec fn view(&self) -> DbView {
        view_of(self.db)
    }

    /// The time-to-live settings.
    pub closed spec fn settings(&self) -> SavedConfig {
        self.saved
    }

    /// Invariant: stored data decodes, the indexes agree with the values,
    /// the settings are well-formed, and no write transaction is alive.
    pub closed spec fn wf(&self) -> bool {
        &&& self.contents_wf()
        &&& db_write_free(self.db)
    }

    /// The invariant but for the write transaction: what holds while an
    /// operation has one alive.
    closed spec fn contents_wf(&self) -> bool {
        &&& main_wf(db_main(self.db))
        &&& ttl_wf(db_ttl(self.db, ACTIVE_EXPIRY@))
        &&& ttl_wf(db_ttl(self.db, TRASH_EXPIRY@))
        &&& consistent(view_of(self.db))
        &&& self.saved.trash_ttl.wf()
        &&& self.saved.purge_ttl.wf()
    }

    /// What the invariant gives about the content.
    pub proof fn lemma_wf(&self)
        requires
            self.wf(),
        ensures
            consistent(self@),
            view_wf(self@),
            self.settings().trash_ttl.wf(),
            self.settings().purge_ttl.wf(),
    {
        self.lemma_contents_wf();
    }

    /// What the invariant but for the write transaction gives.
    proof fn lemma_contents_wf(&self)
        requires
            self.contents_wf(),
        ensures
            consistent(self@),
            view_wf(self@),
            self.settings().trash_ttl.wf(),
            self.settings().purge_ttl.wf(),
    {
        lemma_view_wf(
            db_main(self.db),
            db_ttl(self.db, ACTIVE_EXPIRY@),
            db_ttl(self.db, TRASH_EXPIRY@),
            db_meta(self.db),
        );
    }
}

} // verus!

verus! {

/// The content without key `k`: its value and its index entry removed.
pub open spec fn without_entry(v: DbView, k: Seq<char>) -> DbView {
    if !v.entries.contains_key(k) {
        v
    } else {
        let s = v.entries[k].metadata.lifecycle_state;
        DbView {
            entries: v.entries.remove(k),
            active: if s is Active {
                v.active.remove(state_entry(k, s))
            } else {
                v.active
            },
            trash: if s is Trash {
                v.trash.remove(state_entry(k, s))
            } else {
                v.trash
            },
            meta: v.meta,
        }
    }
}

/// The content with key `k` holding `nv`, indexed by its lifecycle state.
pub open spec fn with_entry(v: DbView, k: Seq<char>, nv: ValueView) -> DbView {
    let s = nv.metadata.lifecycle_state;
    DbView {
        entries: v.entries.insert(k, nv),
        active: if s is Active {
            v.active.insert(state_entry(k, s))
        } else {
            v.active
        },
        trash: if s is Trash {
            v.trash.insert(state_entry(k, s))
        } else {
            v.trash
        },
        meta: v.meta,
    }
}

/// The content with the value of `k` replaced by `nv`.
pub open spec fn put_entry(v: DbView, k: Seq<char>, nv: ValueView) -> DbView {
    with_entry(without_entry(v, k), k, nv)
}

/// The decoded view's keys are valid and index entries well-formed.
pub open spec fn view_wf(v: DbView) -> bool {
    &&& forall|k: Seq<char>|
        #[trigger] v.entries.contains_key(k) ==> valid_key_chars(k) && metadata_wf(
            v.entries[k].metadata,
        )
    &&& ttl_wf(v.active)
    &&& ttl_wf(v.trash)
}

/// Index entries of distinct keys, or of distinct times, are distinct.
pub proof fn lemma_state_entry(k: Seq<char>, s: LifecycleState)
    requires
        valid_key_chars(k),
        crate::types::value::state_time(s).wf(),
    ensures
        ttl_entry_wf(state_entry(k, s)),
        entry_key(state_entry(k, s)) == k,
        entry_time(state_entry(k, s)) == crate::types::value::state_time(s),
{
    let t = crate::types::value::state_time(s);
    crate::types::text::lemma_trim_idempotent(k);
    crate::types::ttl_key::lemma_ttl_roundtrip(t, k);
}

/// Removing a key keeps the content consistent and well-formed.
pub proof fn lemma_without_entry(v: DbView, k: Seq<char>)
    requires
        view_wf(v),
        consistent(v),
    ensures
        view_wf(without_entry(v, k)),
        consistent(without_entry(v, k)),
        !without_entry(v, k).entries.contains_key(k),
        without_entry(v, k).meta == v.meta,
{
    if v.entries.contains_key(k) {
        let s = v.entries[k].metadata.lifecycle_state;
        let w = without_entry(v, k);
        lemma_state_entry(k, s);
        assert forall|e: Seq<u8>| #[trigger] w.active.contains(e) implies w.entries.contains_key(
            entry_key(e),
        ) && w.entries[entry_key(e)].metadata.lifecycle_state == (LifecycleState::Active {
            last_accessed: entry_time(e),
        }) by {
            assert(v.active.contains(e));
            assert(ttl_entry_wf(e));
            if entry_key(e) == k {
                assert(e == state_entry(k, s));
            }
        }
        assert forall|e: Seq<u8>| #[trigger] w.trash.contains(e) implies w.entries.contains_key(
            entry_key(e),
        ) && w.entries[entry_key(e)].metadata.lifecycle_state == (LifecycleState::Trash {
            trashed_at: entry_time(e),
        }) by {
            assert(v.trash.contains(e));
            assert(ttl_entry_wf(e));
            if entry_key(e) == k {
                assert(e == state_entry(k, s));
            }
        }
        assert forall|k2: Seq<char>| #[trigger] w.entries.contains_key(k2) implies match w.entries[k2].metadata.lifecycle_state {
            LifecycleState::Active { last_accessed } => w.active.contains(ttl_bytes(last_accessed, k2)),
            LifecycleState::Trash { trashed_at } => w.trash.contains(ttl_bytes(trashed_at, k2)),
        } by {
            let s2 = v.entries[k2].metadata.lifecycle_state;
            lemma_state_entry(k2, s2);
            assert(state_entry(k2, s2) != state_entry(k, s)) by {
                assert(entry_key(state_entry(k2, s2)) != entry_key(state_entry(k, s)));
            }
        }
    }
}

/// Adding an absent key keeps the content consistent and well-formed.
pub proof fn lemma_with_entry(v: DbView, k: Seq<char>, nv: ValueView)
    requires
        view_wf(v),
        consistent(v),
        !v.entries.contains_key(k),
        valid_key_chars(k),
        metadata_wf(nv.metadata),
    ensures
        view_wf(with_entry(v, k, nv)),
        consistent(with_entry(v, k, nv)),
        with_entry(v, k, nv).meta == v.meta,
{
    let s = nv.metadata.lifecycle_state;
    let w = with_entry(v, k, nv);
    lemma_state_entry(k, s);
    assert forall|e: Seq<u8>| #[trigger] w.active.contains(e) implies ttl_entry_wf(e) by {
        if e != state_entry(k, s) {
            assert(v.active.contains(e));
        }
    }
    assert forall|e: Seq<u8>| #[trigger] w.trash.contains(e) implies ttl_entry_wf(e) by {
        if e != state_entry(k, s) {
            assert(v.trash.contains(e));
        }
    }
    assert forall|e: Seq<u8>| #[trigger] w.active.contains(e) implies w.entries.contains_key(
        entry_key(e),
    ) && w.entries[entry_key(e)].metadata.lifecycle_state == (LifecycleState::Active {
        last_accessed: entry_time(e),
    }) by {
        if e != state_entry(k, s) {
            assert(v.active.contains(e));
        }
    }
    assert forall|e: Seq<u8>| #[trigger] w.trash.contains(e) implies w.entries.contains_key(
        entry_key(e),
    ) && w.entries[entry_key(e)].metadata.lifecycle_state == (LifecycleState::Trash {
        trashed_at: entry_time(e),
    }) by {
        if e != state_entry(k, s) {
            assert(v.trash.contains(e));
        }
    }
    assert forall|k2: Seq<char>| #[trigger] w.entries.contains_key(k2) implies match w.entries[k2].metadata.lifecycle_state {
        LifecycleState::Active { last_accessed } => w.active.contains(ttl_bytes(last_accessed, k2)),
        LifecycleState::Trash { trashed_at } => w.trash.contains(ttl_bytes(trashed_at, k2)),
    } by {
        if k2 != k {
            assert(v.entries.contains_key(k2));
        }
    }
}

/// Replacing the value of a key keeps the content consistent and well-formed.
pub proof fn lemma_put_entry(v: DbView, k: Seq<char>, nv: ValueView)
    requires
        view_wf(v),
        consistent(v),
        valid_key_chars(k),
        metadata_wf(nv.metadata),
    ensures
        view_wf(put_entry(v, k, nv)),
        consistent(put_entry(v, k, nv)),
        put_entry(v, k, nv).meta == v.meta,
{
    lemma_without_entry(v, k);
    lemma_with_entry(without_entry(v, k), k, nv);
}

} // verus!

verus! {

/// The raw tables of a write transaction are well-formed.
pub open spec fn txn_wf(t: redb::WriteTransaction) -> bool {
    &&& main_wf(wt_main(t))
    &&& ttl_wf(wt_ttl(t, ACTIVE_EXPIRY@))
    &&& ttl_wf(wt_ttl(t, TRASH_EXPIRY@))
}

/// Well-formed raw tables give a well-formed view.
pub proof fn lemma_view_wf(
    m: Map<Seq<char>, Seq<u8>>,
    a: Set<Seq<u8>>,
    tr: Set<Seq<u8>>,
    meta: Map<Seq<char>, Seq<char>>,
)
    requires
        main_wf(m),
        ttl_wf(a),
        ttl_wf(tr),
    ensures
        view_wf(DbView { entries: decode_all(m), active: a, trash: tr, meta }),
{
}

/// Storing bytes that decode to `nv` stores `nv`.
pub proof fn lemma_decode_insert(m: Map<Seq<char>, Seq<u8>>, k: Seq<char>, b: Seq<u8>, nv: ValueView)
    requires
        value_decode(b) == Some(nv),
    ensures
        decode_all(m.insert(k, b)) == decode_all(m).insert(k, nv),
        main_wf(m) && valid_key_chars(k) && metadata_wf(nv.metadata) ==> main_wf(m.insert(k, b)),
{
    assert(decode_all(m.insert(k, b)) =~= decode_all(m).insert(k, nv));
}

/// Removing stored bytes removes the value.
pub proof fn lemma_decode_remove(m: Map<Seq<char>, Seq<u8>>, k: Seq<char>)
    ensures
        decode_all(m.remove(k)) == decode_all(m).remove(k),
        main_wf(m) ==> main_wf(m.remove(k)),
{
    assert(decode_all(m.remove(k)) =~= decode_all(m).remove(k));
}

/// The index table that holds the entries of a lifecycle state.
pub open spec fn state_table(s: LifecycleState) -> Seq<char> {
    match s {
        LifecycleState::Active { .. } => ACTIVE_EXPIRY@,
        LifecycleState::Trash { .. } => TRASH_EXPIRY@,
    }
}

/// The two index tables are distinct.
pub proof fn lemma_tables_distinct()
    ensures
        ACTIVE_EXPIRY@ != TRASH_EXPIRY@,
        ACTIVE_EXPIRY@.len() > 0,
        TRASH_EXPIRY@.len() > 0,
{
    reveal_strlit("ttl_trashed");
    reveal_strlit("ttl_purged");
    assert(ACTIVE_EXPIRY@[4] != TRASH_EXPIRY@[4]);
}

/// The index entry of a key in a lifecycle state.
fn ttl_key_of(key: &Key, s: LifecycleState) -> (r: (TtlTable, TtlKey))
    ensures
        r.0.name@ == state_table(s),
        r.0.name@.len() > 0,
        ttl_bytes(r.1.timestamp, r.1.key@) == state_entry(key@, s),
{
    proof {
        lemma_tables_distinct();
    }
    match s {
        LifecycleState::Active { last_accessed } => (
            TtlTable::new(ACTIVE_EXPIRY),
            TtlKey { timestamp: last_accessed, key: key.clone() },
        ),
        LifecycleState::Trash { trashed_at } => (
            TtlTable::new(TRASH_EXPIRY),
            TtlKey { timestamp: trashed_at, key: key.clone() },
        ),
    }
}

impl KeyDatabase {
    /// The value of `key` as the transaction sees it.
    fn fetch(t: &redb::WriteTransaction, key: &Key) -> (r: Result<Option<Value>, DatabaseError>)
        requires
            main_wf(wt_main(*t)),
        ensures
            r matches Ok(o) ==> match o {
                Some(v) => txn_view(*t).entries.contains_key(key@) && v@ == txn_view(
                    *t,
                ).entries[key@] && metadata_wf(v.metadata),
                None => !txn_view(*t).entries.contains_key(key@),
            },
            r matches Err(e) ==> e is Redb,
    {
        match main_get(t, key.as_str()) {
            Err(e) => Err(DatabaseError::Redb(e)),
            Ok(None) => Ok(None),
            Ok(Some(bytes)) => {
                match VersionedValue::from_bytes(bytes.as_slice()) {
                    Ok(VersionedValue::V1(v)) => Ok(Some(v)),
                    Err(_) => {
                        proof {
                            assert(wt_main(*t).contains_key(key@));
                        }
                        Err(DatabaseError::Corrupted)
                    },
                }
            },
        }
    }

    /// Stores `nv` for `key`, replacing a value in state `old_state`.
    fn replace(
        t: &mut redb::WriteTransaction,
        key: &Key,
        old_state: LifecycleState,
        nv: &Value,
    ) -> (r: Result<(), DatabaseError>)
        requires
            txn_wf(*old(t)),
            key.wf(),
            metadata_wf(nv.metadata),
            txn_view(*old(t)).entries.contains_key(key@),
            txn_view(*old(t)).entries[key@].metadata.lifecycle_state == old_state,
        ensures
            wt_origin(*final(t)) == wt_origin(*old(t)),
            r is Ok ==> txn_view(*final(t)) == put_entry(txn_view(*old(t)), key@, nv@),
            r is Ok ==> txn_wf(*final(t)),
            r matches Err(e) ==> e is Redb,
    {
        let ghost v0 = txn_view(*t);
        let ghost m0 = wt_main(*t);
        let bytes = match crate::types::value::encode_value(nv) {
            Ok(b) => b,
            Err(_) => return Err(DatabaseError::Encoding),
        };
        proof {
            lemma_tables_distinct();
        }
        let (old_table, old_ttl) = ttl_key_of(key, old_state);
        old_table.remove(t, &old_ttl)?;
        let ghost a1 = wt_ttl(*t, ACTIVE_EXPIRY@);
        let ghost t1 = wt_ttl(*t, TRASH_EXPIRY@);
        proof {
            if old_state is Active {
                assert(a1 == v0.active.remove(state_entry(key@, old_state)));
                assert(t1 == v0.trash);
            } else {
                assert(t1 == v0.trash.remove(state_entry(key@, old_state)));
                assert(a1 == v0.active);
            }
        }
        let (new_table, new_ttl) = ttl_key_of(key, nv.metadata.lifecycle_state);
        new_table.insert(t, &new_ttl)?;
        let ghost a2 = wt_ttl(*t, ACTIVE_EXPIRY@);
        let ghost t2 = wt_ttl(*t, TRASH_EXPIRY@);
        proof {
            if nv.metadata.lifecycle_state is Active {
                assert(a2 == a1.insert(state_entry(key@, nv.metadata.lifecycle_state)));
                assert(t2 == t1);
            } else {
                assert(t2 == t1.insert(state_entry(key@, nv.metadata.lifecycle_state)));
                assert(a2 == a1);
            }
        }
        match main_insert(t, key.as_str(), bytes.as_slice()) {
            Ok(()) => {},
            Err(e) => return Err(DatabaseError::Redb(e)),
        }
        proof {
            lemma_decode_insert(m0, key@, bytes@, nv@);
            let w = put_entry(v0, key@, nv@);
            let v1 = txn_view(*t);
            assert(v1.entries =~= w.entries);
            assert(v1.active =~= w.active);
            assert(v1.trash =~= w.trash);
            lemma_state_entry(key@, nv.metadata.lifecycle_state);
            assert(ttl_wf(v1.active)) by {
                assert forall|e: Seq<u8>| #[trigger] v1.active.contains(e) implies ttl_entry_wf(e) by {
                    if e != state_entry(key@, nv.metadata.lifecycle_state) {
                        assert(v0.active.contains(e));
                    }
                }
            }
            assert(ttl_wf(v1.trash)) by {
                assert forall|e: Seq<u8>| #[trigger] v1.trash.contains(e) implies ttl_entry_wf(e) by {
                    if e != state_entry(key@, nv.metadata.lifecycle_state) {
                        assert(v0.trash.contains(e));
                    }
                }
            }
        }
        Ok(())
    }
}

} // verus!

verus! {

/// A value marked as used at `now`.
pub open spec fn refreshed(v: ValueView, now: Timestamp) -> ValueView {
    ValueView {
        metadata: Metadata {
            lifecycle_state: LifecycleState::Active { last_accessed: now },
            ..v.metadata
        },
        ..v
    }
}

/// A value marked as modified (and used) at `now`.
pub open spec fn modified(v: ValueView, now: Timestamp) -> ValueView {
    ValueView {
        metadata: Metadata {
            created_at: v.metadata.created_at,
            updated_at: now,
            lifecycle_state: LifecycleState::Active { last_accessed: now },
        },
        ..v
    }
}

/// The value a key starts with when created at `now`.
pub open spec fn fresh_value(now: Timestamp) -> ValueView {
    ValueView {
        metadata: Metadata {
            created_at: now,
            updated_at: now,
            lifecycle_state: LifecycleState::Active { last_accessed: now },
        },
        attachments: Seq::empty(),
        thumb_version: THUMB_VER,
    }
}

impl KeyDatabase {
    /// Commits `t`, whose content becomes the database's.
    fn finish(&mut self, t: redb::WriteTransaction) -> (r: Result<(), DatabaseError>)
        requires
            old(self).contents_wf(),
            txn_wf(t),
            consistent(txn_view(t)),
            wt_origin(t) == old(self).db,
        ensures
            final(self).wf(),
            final(self).settings() == old(self).settings(),
            r is Ok ==> final(self)@ == txn_view(t),
            r is Err ==> final(self)@ == old(self)@ || final(self)@ == txn_view(t),
            r matches Err(e) ==> e is Redb,
    {
        let ghost d0 = self.db;
        match commit(t, &mut self.db) {
            Ok(()) => {
                proof {
                    assert(view_of(self.db).active == txn_view(t).active);
                    assert(view_of(self.db).trash == txn_view(t).trash);
                }
                Ok(())
            },
            Err(e) => {
                proof {
                    if db_same(self.db, d0) {
                        assert(view_of(self.db).active == view_of(d0).active);
                        assert(view_of(self.db).trash == view_of(d0).trash);
                    } else {
                        assert(view_of(self.db).active == txn_view(t).active);
                        assert(view_of(self.db).trash == txn_view(t).trash);
                    }
                }
                Err(DatabaseError::Redb(e))
            },
        }
    }

    /// A write transaction on the database; while it is alive the database
    /// is busy.
    fn begin(&mut self) -> (r: Result<redb::WriteTransaction, DatabaseError>)
        requires
            old(self).wf(),
        ensures
            final(self).contents_wf(),
            final(self)@ == old(self)@,
            final(self).saved == old(self).saved,
            r matches Ok(t) ==> txn_view(t) == old(self)@ && txn_wf(t) && wt_origin(t) == final(self).db,
            r is Err ==> final(self).wf(),
            r matches Err(e) ==> e is Redb,
    {
        let ghost d0 = self.db;
        let r = begin_write(&mut self.db);
        proof {
            lemma_same_view(self.db, d0);
        }
        match r {
            Ok(t) => {
                proof {
                    assert(wt_ttl(t, ACTIVE_EXPIRY@) == db_ttl(d0, ACTIVE_EXPIRY@));
                    assert(wt_ttl(t, TRASH_EXPIRY@) == db_ttl(d0, TRASH_EXPIRY@));
                }
                Ok(t)
            },
            Err(e) => Err(DatabaseError::Redb(e)),
        }
    }

    /// Ends the write transaction `t` without writing.
    fn abandon(&mut self, t: redb::WriteTransaction)
        requires
            old(self).contents_wf(),
            wt_origin(t) == old(self).db,
        ensures
            final(self).wf(),
            final(self)@ == old(self)@,
            final(self).saved == old(self).saved,
    {
        let ghost d0 = self.db;
        let _ = abort(t, &mut self.db);
        proof {
            lemma_same_view(self.db, d0);
        }
    }

    /// The value stored for `key`.
    pub fn get(&self, key: &Key) -> (r: Result<Option<Value>, DatabaseError>)
        requires
            self.wf(),
        ensures
            r matches Ok(o) ==> match o {
                Some(v) => self@.entries.contains_key(key@) && v@ == self@.entries[key@],
                None => !self@.entries.contains_key(key@),
            },
            r matches Err(e) ==> e is Redb,
    {
        let t = match begin_read(&self.db) {
            Ok(t) => t,
            Err(e) => return Err(DatabaseError::Redb(e)),
        };
        match crate::database::store::read_main_get(&t, key.as_str()) {
            Err(e) => Err(DatabaseError::Redb(e)),
            Ok(None) => Ok(None),
            Ok(Some(bytes)) => {
                match VersionedValue::from_bytes(bytes.as_slice()) {
                    Ok(VersionedValue::V1(v)) => Ok(Some(v)),
                    Err(_) => {
                        proof {
                            assert(db_main(self.db).contains_key(key@));
                        }
                        Err(DatabaseError::Corrupted)
                    },
                }
            },
        }
    }

    /// All active keys, in the order of their index entries (oldest use first).
    pub fn active_keys(&self) -> (r: Result<Vec<Key>, DatabaseError>)
        requires
            self.wf(),
        ensures
            r matches Ok(keys) ==> keys_in_order(keys@, self@.active),
            r matches Err(e) ==> e is Redb,
    {
        let t = match begin_read(&self.db) {
            Ok(t) => t,
            Err(e) => return Err(DatabaseError::Redb(e)),
        };
        proof {
            assert(rt_ttl(t, ACTIVE_EXPIRY@) == db_ttl(self.db, ACTIVE_EXPIRY@));
            lemma_tables_distinct();
        }
        TtlTable::new(ACTIVE_EXPIRY).all_keys(&t)
    }

    /// All trashed keys, in the order of their index entries (oldest first).
    pub fn trashed_keys(&self) -> (r: Result<Vec<Key>, DatabaseError>)
        requires
            self.wf(),
        ensures
            r matches Ok(keys) ==> keys_in_order(keys@, self@.trash),
            r matches Err(e) ==> e is Redb,
    {
        let t = match begin_read(&self.db) {
            Ok(t) => t,
            Err(e) => return Err(DatabaseError::Redb(e)),
        };
        proof {
            assert(rt_ttl(t, TRASH_EXPIRY@) == db_ttl(self.db, TRASH_EXPIRY@));
            lemma_tables_distinct();
        }
        TtlTable::new(TRASH_EXPIRY).all_keys(&t)
    }

    /// Creates `key` with no attachments, active since `now`.
    pub fn create(&mut self, key: &Key, now: Timestamp) -> (r: Result<Value, DatabaseError>)
        requires
            old(self).wf(),
            key.wf(),
            now.wf(),
        ensures
            final(self).wf(),
            final(self).settings() == old(self).settings(),
            match r {
                Ok(v) => v@ == fresh_value(now) && !old(self)@.entries.contains_key(key@)
                    && final(self)@ == with_entry(old(self)@, key@, v@),
                Err(DatabaseError::AlreadyExists) => old(self)@.entries.contains_key(key@)
                    && final(self)@ == old(self)@,
                Err(DatabaseError::Redb(_)) => final(self)@ == old(self)@ || (
                !old(self)@.entries.contains_key(key@) && final(self)@ == with_entry(
                    old(self)@,
                    key@,
                    fresh_value(now),
                )),
                Err(_) => false,
            },
    {
        let ghost v0 = self@;
        proof {
            self.lemma_wf();
        }
        let mut t = self.begin()?;
        let new_value = Value {
            metadata: Metadata {
                created_at: now,
                updated_at: now,
                lifecycle_state: LifecycleState::Active { last_accessed: now },
            },
            attachments: Vec::new(),
            thumb_version: THUMB_VER,
        };
        proof {
            assert(new_value@ == fresh_value(now)) by {
                assert(new_value@.attachments =~= Seq::<(Seq<char>, u64)>::empty());
            }
        }
        match Self::fetch(&t, key) {
            Ok(Some(_)) => {
                self.abandon(t);
                return Err(DatabaseError::AlreadyExists);
            },
            Ok(None) => {},
            Err(e) => {
                self.abandon(t);
                return Err(e);
            },
        }
        if let Err(e) = Self::insert_new(&mut t, key, &new_value) {
            self.abandon(t);
            return Err(e);
        }
        proof {
            lemma_with_entry(v0, key@, new_value@);
        }
        self.finish(t)?;
        Ok(new_value)
    }

    /// Stores `nv` for an absent `key`.
    fn insert_new(t: &mut redb::WriteTransaction, key: &Key, nv: &Value) -> (r: Result<
        (),
        DatabaseError,
    >)
        requires
            txn_wf(*old(t)),
            key.wf(),
            metadata_wf(nv.metadata),
            !txn_view(*old(t)).entries.contains_key(key@),
        ensures
            wt_origin(*final(t)) == wt_origin(*old(t)),
            r is Ok ==> txn_view(*final(t)) == with_entry(txn_view(*old(t)), key@, nv@),
            r is Ok ==> txn_wf(*final(t)),
            r matches Err(e) ==> e is Redb,
    {
        let ghost v0 = txn_view(*t);
        let ghost m0 = wt_main(*t);
        let bytes = match crate::types::value::encode_value(nv) {
            Ok(b) => b,
            Err(_) => return Err(DatabaseError::Encoding),
        };
        proof {
            lemma_tables_distinct();
        }
        let (new_table, new_ttl) = ttl_key_of(key, nv.metadata.lifecycle_state);
        new_table.insert(t, &new_ttl)?;
        match main_insert(t, key.as_str(), bytes.as_slice()) {
            Ok(()) => {},
            Err(e) => return Err(DatabaseError::Redb(e)),
        }
        proof {
            lemma_decode_insert(m0, key@, bytes@, nv@);
            let w = with_entry(v0, key@, nv@);
            let v1 = txn_view(*t);
            assert(v1.entries =~= w.entries);
            assert(v1.active =~= w.active);
            assert(v1.trash =~= w.trash);
            lemma_state_entry(key@, nv.metadata.lifecycle_state);
            assert(ttl_wf(v1.active)) by {
                assert forall|e: Seq<u8>| #[trigger] v1.active.contains(e) implies ttl_entry_wf(e) by {
                    if e != state_entry(key@, nv.metadata.lifecycle_state) {
                        assert(v0.active.contains(e));
                    }
                }
            }
            assert(ttl_wf(v1.trash)) by {
                assert forall|e: Seq<u8>| #[trigger] v1.trash.contains(e) implies ttl_entry_wf(e) by {
                    if e != state_entry(key@, nv.metadata.lifecycle_state) {
                        assert(v0.trash.contains(e));
                    }
                }
            }
        }
        Ok(())
    }
}

} // verus!

verus! {

/// After a failed write: nothing changed, or (where the write was due) the
/// write took effect as a whole.
pub open spec fn kept_or_applied(before: DbView, after: DbView, due: bool, target: DbView) -> bool {
    after == before || (due && after == target)
}

/// The value a renamed key holds: an active key counts as used at `now`.
pub open spec fn moved(v: ValueView, now: Timestamp) -> ValueView {
    if v.metadata.lifecycle_state is Active {
        refreshed(v, now)
    } else {
        v
    }
}

/// The content after renaming `src` to `dst` at `now`, replacing `dst`.
pub open spec fn renamed_view(v: DbView, src: Seq<char>, dst: Seq<char>, now: Timestamp) -> DbView {
    with_entry(without_entry(without_entry(v, dst), src), dst, moved(v.entries[src], now))
}

/// The values after trashing, at `now`, the first `i` keys of `ks`.
pub open spec fn trash_step(
    e: Map<Seq<char>, ValueView>,
    ks: Seq<Seq<char>>,
    i: int,
    now: Timestamp,
) -> Map<Seq<char>, ValueView> {
    Map::new(
        |k: Seq<char>| e.contains_key(k),
        |k: Seq<char>|
            if ks.subrange(0, i).contains(k) {
                trashed(e[k], now)
            } else {
                e[k]
            },
    )
}

/// The values after deleting the first `i` keys of `ks`.
pub open spec fn purge_step(e: Map<Seq<char>, ValueView>, ks: Seq<Seq<char>>, i: int) -> Map<
    Seq<char>,
    ValueView,
> {
    Map::new(|k: Seq<char>| e.contains_key(k) && !ks.subrange(0, i).contains(k), |k: Seq<char>| e[k])
}

/// A prefix one longer holds one more element.
pub proof fn lemma_prefix_contains(ks: Seq<Seq<char>>, i: int)
    requires
        0 <= i < ks.len(),
    ensures
        forall|x: Seq<char>|
            #[trigger] ks.subrange(0, i + 1).contains(x) == (ks.subrange(0, i).contains(x) || x
                == ks[i]),
{
    let s0 = ks.subrange(0, i);
    let s1 = ks.subrange(0, i + 1);
    assert forall|x: Seq<char>| #[trigger] s1.contains(x) == (s0.contains(x) || x == ks[i]) by {
        if x == ks[i] {
            assert(s1[i] == x);
        }
        if s0.contains(x) {
            let j = choose|j: int| 0 <= j < s0.len() && s0[j] == x;
            assert(s1[j] == x);
        }
        if s1.contains(x) {
            let j = choose|j: int| 0 <= j < s1.len() && s1[j] == x;
            if j < i {
                assert(s0[j] == x);
            }
        }
    }
}

/// The lifecycle state that an index entry of time `t` stands for.
pub open spec fn indexed_state(t: Timestamp, in_trash: bool) -> LifecycleState {
    if in_trash {
        LifecycleState::Trash { trashed_at: t }
    } else {
        LifecycleState::Active { last_accessed: t }
    }
}

/// An index entry is well-formed and names a stored key in the state that
/// the index stands for.
pub open spec fn index_entry_ok(m: Map<Seq<char>, Seq<u8>>, e: Seq<u8>, in_trash: bool) -> bool {
    &&& ttl_entry_wf(e)
    &&& m.contains_key(entry_key(e))
    &&& value_decode(m[entry_key(e)]) is Some
    &&& value_decode(m[entry_key(e)])->0.metadata.lifecycle_state == indexed_state(
        entry_time(e),
        in_trash,
    )
}

/// Every entry of the index is as [`index_entry_ok`] says.
pub open spec fn index_ok(m: Map<Seq<char>, Seq<u8>>, idx: Set<Seq<u8>>, in_trash: bool) -> bool {
    forall|e: Seq<u8>| #[trigger] idx.contains(e) ==> index_entry_ok(m, e, in_trash)
}

/// A stored value decodes under a valid key, with well-formed metadata,
/// and its index entry is present.
pub open spec fn main_entry_ok(
    m: Map<Seq<char>, Seq<u8>>,
    a: Set<Seq<u8>>,
    tr: Set<Seq<u8>>,
    k: Seq<char>,
) -> bool {
    &&& valid_key_chars(k)
    &&& value_decode(m[k]) is Some
    &&& metadata_wf(value_decode(m[k])->0.metadata)
    &&& match value_decode(m[k])->0.metadata.lifecycle_state {
        LifecycleState::Active { last_accessed } => a.contains(ttl_bytes(last_accessed, k)),
        LifecycleState::Trash { trashed_at } => tr.contains(ttl_bytes(trashed_at, k)),
    }
}

/// Every stored value is as [`main_entry_ok`] says.
pub open spec fn main_ok(m: Map<Seq<char>, Seq<u8>>, a: Set<Seq<u8>>, tr: Set<Seq<u8>>) -> bool {
    forall|k: Seq<char>| #[trigger] m.contains_key(k) ==> main_entry_ok(m, a, tr, k)
}

/// The data stored in a database is sound: every value decodes under a
/// valid key with its index entry present, and every index entry is
/// well-formed and names a stored key in the state of its index.
pub open spec fn stored_sound(d: redb::Database) -> bool {
    &&& main_ok(db_main(d), db_ttl(d, ACTIVE_EXPIRY@), db_ttl(d, TRASH_EXPIRY@))
    &&& index_ok(db_main(d), db_ttl(d, ACTIVE_EXPIRY@), false)
    &&& index_ok(db_main(d), db_ttl(d, TRASH_EXPIRY@), true)
}

/// Tables that pass the checks are well-formed and consistent.
pub proof fn lemma_checked_consistent(
    m: Map<Seq<char>, Seq<u8>>,
    a: Set<Seq<u8>>,
    tr: Set<Seq<u8>>,
    meta: Map<Seq<char>, Seq<char>>,
)
    requires
        main_ok(m, a, tr),
        index_ok(m, a, false),
        index_ok(m, tr, true),
    ensures
        main_wf(m),
        ttl_wf(a),
        ttl_wf(tr),
        consistent(DbView { entries: decode_all(m), active: a, trash: tr, meta }),
{
    let v = DbView { entries: decode_all(m), active: a, trash: tr, meta };
    assert forall|k: Seq<char>| #[trigger] m.contains_key(k) implies valid_key_chars(k)
        && value_decode(m[k]) is Some && metadata_wf(value_decode(m[k])->0.metadata) by {
        assert(main_entry_ok(m, a, tr, k));
    }
    assert forall|e: Seq<u8>| #[trigger] a.contains(e) implies ttl_entry_wf(e) by {
        assert(index_entry_ok(m, e, false));
    }
    assert forall|e: Seq<u8>| #[trigger] tr.contains(e) implies ttl_entry_wf(e) by {
        assert(index_entry_ok(m, e, true));
    }
    assert forall|k: Seq<char>| #[trigger] v.entries.contains_key(k) implies match v.entries[k].metadata.lifecycle_state {
        LifecycleState::Active { last_accessed } => v.active.contains(ttl_bytes(last_accessed, k)),
        LifecycleState::Trash { trashed_at } => v.trash.contains(ttl_bytes(trashed_at, k)),
    } by {
        assert(main_entry_ok(m, a, tr, k));
    }
    assert forall|e: Seq<u8>| #[trigger] v.active.contains(e) implies v.entries.contains_key(
        entry_key(e),
    ) && v.entries[entry_key(e)].metadata.lifecycle_state == (LifecycleState::Active {
        last_accessed: entry_time(e),
    }) by {
        assert(index_entry_ok(m, e, false));
    }
    assert forall|e: Seq<u8>| #[trigger] v.trash.contains(e) implies v.entries.contains_key(
        entry_key(e),
    ) && v.entries[entry_key(e)].metadata.lifecycle_state == (LifecycleState::Trash {
        trashed_at: entry_time(e),
    }) by {
        assert(index_entry_ok(m, e, true));
    }
}

/// The key exists and is active.
pub open spec fn has_active(v: DbView, k: Seq<char>) -> bool {
    v.entries.contains_key(k) && v.entries[k].metadata.lifecycle_state is Active
}

/// The key exists and is in the trash.
pub open spec fn has_trashed(v: DbView, k: Seq<char>) -> bool {
    v.entries.contains_key(k) && v.entries[k].metadata.lifecycle_state is Trash
}

/// A value moved to the trash at `now`.
pub open spec fn trashed(v: ValueView, now: Timestamp) -> ValueView {
    ValueView {
        metadata: Metadata { lifecycle_state: LifecycleState::Trash { trashed_at: now }, ..v.metadata },
        ..v
    }
}

/// A value whose attachments are replaced by `atts`, modified at `now`.
pub open spec fn with_attachments(
    v: ValueView,
    atts: Seq<(Seq<char>, u64)>,
    now: Timestamp,
) -> ValueView {
    ValueView { attachments: atts, ..modified(v, now) }
}

/// `i` is the first position of an attachment named `name`.
pub open spec fn is_first_named(atts: Seq<(Seq<char>, u64)>, name: Seq<char>, i: int) -> bool {
    &&& 0 <= i < atts.len()
    &&& atts[i].0 == name
    &&& forall|j: int| 0 <= j < i ==> atts[j].0 != name
}

/// The first position of an attachment named `name`, if there is one.
pub open spec fn attachment_index(atts: Seq<(Seq<char>, u64)>, name: Seq<char>) -> Option<int> {
    if exists|i: int| is_first_named(atts, name, i) {
        Some(choose|i: int| is_first_named(atts, name, i))
    } else {
        None
    }
}

/// The attachments after renaming `from` to `to`: an attachment already
/// named `to` (another than `from`) is dropped first; `None` when no
/// attachment is named `from` after that. Renaming to the same name keeps
/// the attachments.
pub open spec fn renamed_attachments(
    atts: Seq<(Seq<char>, u64)>,
    from: Seq<char>,
    to: Seq<char>,
) -> Option<Seq<(Seq<char>, u64)>> {
    let a1 = if from == to {
        atts
    } else {
        match attachment_index(atts, to) {
            Some(p) => atts.remove(p),
            None => atts,
        }
    };
    match attachment_index(a1, from) {
        Some(q) => Some(a1.update(q, (to, a1[q].1))),
        None => None,
    }
}

/// The attachments after adding `a` in place of the first attachment with
/// its name, if there is one.
pub open spec fn replaced_attachments(
    atts: Seq<(Seq<char>, u64)>,
    a: (Seq<char>, u64),
) -> Seq<(Seq<char>, u64)> {
    let base = match attachment_index(atts, a.0) {
        Some(p) => atts.remove(p),
        None => atts,
    };
    base.push(a)
}

/// At most one attachment is named `name`.
pub open spec fn at_most_one_named(atts: Seq<(Seq<char>, u64)>, name: Seq<char>) -> bool {
    forall|i: int, j: int|
        0 <= i < j < atts.len() && #[trigger] atts[i].0 == name ==> #[trigger] atts[j].0 != name
}

/// Adding an attachment in place of one with its name leaves exactly one
/// attachment of that name, the new one (last), when there was at most one
/// before.
pub proof fn lemma_replace_keeps_one(atts: Seq<(Seq<char>, u64)>, a: (Seq<char>, u64))
    requires
        at_most_one_named(atts, a.0),
    ensures
        replaced_attachments(atts, a).last() == a,
        forall|i: int|
            0 <= i < replaced_attachments(atts, a).len() - 1 ==> (#[trigger] replaced_attachments(
                atts,
                a,
            )[i]).0 != a.0,
        at_most_one_named(replaced_attachments(atts, a), a.0),
{
    let n = a.0;
    let r = replaced_attachments(atts, a);
    match attachment_index(atts, n) {
        Some(p) => {
            assert(is_first_named(atts, n, p));
            let base = atts.remove(p);
            assert forall|i: int| 0 <= i < base.len() implies (#[trigger] base[i]).0 != n by {
                if i < p {
                    assert(base[i] == atts[i]);
                } else {
                    assert(base[i] == atts[i + 1]);
                    assert(atts[p].0 == n);
                }
            }
            assert forall|i: int| 0 <= i < r.len() - 1 implies (#[trigger] r[i]).0 != n by {
                assert(r[i] == base[i]);
            }
        },
        None => {
            assert forall|i: int| 0 <= i < atts.len() implies (#[trigger] atts[i]).0 != n by {
                if atts[i].0 == n {
                    assert forall|j: int| 0 <= j < i implies atts[j].0 != n by {
                        if atts[j].0 == n {
                            assert(atts[i].0 != n);
                        }
                    }
                    assert(is_first_named(atts, n, i));
                }
            }
            assert forall|i: int| 0 <= i < r.len() - 1 implies (#[trigger] r[i]).0 != n by {
                assert(r[i] == atts[i]);
            }
        },
    }
    assert forall|i: int, j: int|
        0 <= i < j < r.len() && #[trigger] r[i].0 == n implies #[trigger] r[j].0 != n by {
        assert(i < r.len() - 1);
    }
}

/// The position of the first attachment named `name`.
pub fn attachment_position(atts: &Vec<Attachment>, name: &str) -> (r: Option<usize>)
    ensures
        match r {
            Some(i) => attachment_index(attachments_view(atts@), name@) == Some(i as int),
            None => attachment_index(attachments_view(atts@), name@) is None,
        },
{
    let ghost av = attachments_view(atts@);
    let mut i: usize = 0;
    while i < atts.len()
        invariant
            i <= atts@.len(),
            av == attachments_view(atts@),
            forall|j: int| 0 <= j < i ==> av[j].0 != name@,
        decreases atts@.len() - i,
    {
        if str_eq(atts[i].filename.as_str(), name) {
            proof {
                assert(is_first_named(av, name@, i as int));
                assert forall|k: int| is_first_named(av, name@, k) implies k == i by {
                    if k < i {
                        assert(av[k].0 != name@);
                    } else if k > i {
                        assert(av[i as int].0 != name@);
                    }
                }
            }
            return Some(i);
        }
        i = i + 1;
    }
    proof {
        assert forall|k: int| !is_first_named(av, name@, k) by {
            if 0 <= k < av.len() {
                assert(av[k].0 != name@);
            }
        }
    }
    None
}

impl KeyDatabase {
    /// Replaces the value of `key` (in state `old_state`) by `nv` and commits.
    fn commit_put(
        &mut self,
        t: redb::WriteTransaction,
        key: &Key,
        old_state: LifecycleState,
        nv: &Value,
    ) -> (r: Result<(), DatabaseError>)
        requires
            old(self).contents_wf(),
            txn_wf(t),
            txn_view(t) == old(self)@,
            wt_origin(t) == old(self).db,
            key.wf(),
            metadata_wf(nv.metadata),
            old(self)@.entries.contains_key(key@),
            old(self)@.entries[key@].metadata.lifecycle_state == old_state,
        ensures
            final(self).wf(),
            final(self).settings() == old(self).settings(),
            r is Ok ==> final(self)@ == put_entry(old(self)@, key@, nv@),
            r matches Err(DatabaseError::Redb(_)) ==> final(self)@ == old(self)@ || final(self)@
                == put_entry(old(self)@, key@, nv@),
            r matches Err(e) ==> e is Redb,
    {
        let ghost v0 = self@;
        proof {
            self.lemma_contents_wf();
        }
        let mut t = t;
        if let Err(e) = Self::replace(&mut t, key, old_state, nv) {
            self.abandon(t);
            return Err(e);
        }
        proof {
            lemma_put_entry(v0, key@, nv@);
        }
        self.finish(t)
    }

    /// Marks `key` as used at `now`.
    pub fn touch(&mut self, key: &Key, now: Timestamp) -> (r: Result<Value, DatabaseError>)
        requires
            old(self).wf(),
            key.wf(),
            now.wf(),
        ensures
            final(self).wf(),
            final(self).settings() == old(self).settings(),
            match r {
                Ok(v) => has_active(old(self)@, key@) && v@ == refreshed(
                    old(self)@.entries[key@],
                    now,
                ) && final(self)@ == put_entry(old(self)@, key@, v@),
                Err(DatabaseError::NotFound) => !old(self)@.entries.contains_key(key@)
                    && final(self)@ == old(self)@,
                Err(DatabaseError::Trashed) => has_trashed(old(self)@, key@) && final(self)@
                    == old(self)@,
                Err(DatabaseError::Redb(_)) => kept_or_applied(
                    old(self)@,
                    final(self)@,
                    has_active(old(self)@, key@),
                    put_entry(old(self)@, key@, refreshed(old(self)@.entries[key@], now)),
                ),
                Err(_) => false,
            },
    {
        let t = self.begin()?;
        let fetched1 = match Self::fetch(&t, key) {
            Ok(f) => f,
            Err(e) => {
                self.abandon(t);
                return Err(e);
            },
        };
        let mut value = match fetched1 {
            Some(v) => v,
            None => {
                self.abandon(t);
                return Err(DatabaseError::NotFound);
            },
        };
        let old_state = value.metadata.lifecycle_state;
        if let LifecycleState::Trash { .. } = old_state {
            self.abandon(t);
            return Err(DatabaseError::Trashed);
        }
        value.metadata.lifecycle_state = LifecycleState::Active { last_accessed: now };
        self.commit_put(t, key, old_state, &value)?;
        Ok(value)
    }

    /// Marks the content of `key` as modified (and used) at `now`.
    pub fn mark_content_modified(&mut self, key: &Key, now: Timestamp) -> (r: Result<
        (),
        DatabaseError,
    >)
        requires
            old(self).wf(),
            key.wf(),
            now.wf(),
        ensures
            final(self).wf(),
            final(self).settings() == old(self).settings(),
            match r {
                Ok(()) => has_active(old(self)@, key@) && final(self)@ == put_entry(
                    old(self)@,
                    key@,
                    modified(old(self)@.entries[key@], now),
                ),
                Err(DatabaseError::NotFound) => !old(self)@.entries.contains_key(key@)
                    && final(self)@ == old(self)@,
                Err(DatabaseError::Trashed) => has_trashed(old(self)@, key@) && final(self)@
                    == old(self)@,
                Err(DatabaseError::Redb(_)) => kept_or_applied(
                    old(self)@,
                    final(self)@,
                    has_active(old(self)@, key@),
                    put_entry(old(self)@, key@, modified(old(self)@.entries[key@], now)),
                ),
                Err(_) => false,
            },
    {
        let t = self.begin()?;
        let fetched2 = match Self::fetch(&t, key) {
            Ok(f) => f,
            Err(e) => {
                self.abandon(t);
                return Err(e);
            },
        };
        let mut value = match fetched2 {
            Some(v) => v,
            None => {
                self.abandon(t);
                return Err(DatabaseError::NotFound);
            },
        };
        let old_state = value.metadata.lifecycle_state;
        if let LifecycleState::Trash { .. } = old_state {
            self.abandon(t);
            return Err(DatabaseError::Trashed);
        }
        value.metadata.updated_at = now;
        value.metadata.lifecycle_state = LifecycleState::Active { last_accessed: now };
        self.commit_put(t, key, old_state, &value)
    }

    /// Appends `attachment` to the attachments of `key`, modified at `now`.
    pub fn add_attachment(&mut self, key: &Key, attachment: Attachment, now: Timestamp) -> (r:
        Result<(), DatabaseError>)
        requires
            old(self).wf(),
            key.wf(),
            now.wf(),
        ensures
            final(self).wf(),
            final(self).settings() == old(self).settings(),
            match r {
                Ok(()) => has_active(old(self)@, key@) && final(self)@ == put_entry(
                    old(self)@,
                    key@,
                    with_attachments(
                        old(self)@.entries[key@],
                        old(self)@.entries[key@].attachments.push(attachment@),
                        now,
                    ),
                ),
                Err(DatabaseError::NotFound) => !old(self)@.entries.contains_key(key@)
                    && final(self)@ == old(self)@,
                Err(DatabaseError::Trashed) => has_trashed(old(self)@, key@) && final(self)@
                    == old(self)@,
                Err(DatabaseError::Redb(_)) => kept_or_applied(
                    old(self)@,
                    final(self)@,
                    has_active(old(self)@, key@),
                    put_entry(
                        old(self)@,
                        key@,
                        with_attachments(
                            old(self)@.entries[key@],
                            old(self)@.entries[key@].attachments.push(attachment@),
                            now,
                        ),
                    ),
                ),
                Err(_) => false,
            },
    {
        let t = self.begin()?;
        let fetched3 = match Self::fetch(&t, key) {
            Ok(f) => f,
            Err(e) => {
                self.abandon(t);
                return Err(e);
            },
        };
        let mut value = match fetched3 {
            Some(v) => v,
            None => {
                self.abandon(t);
                return Err(DatabaseError::NotFound);
            },
        };
        let old_state = value.metadata.lifecycle_state;
        if let LifecycleState::Trash { .. } = old_state {
            self.abandon(t);
            return Err(DatabaseError::Trashed);
        }
        let ghost pre = value.attachments@;
        let ghost a = attachment@;
        value.attachments.push(attachment);
        proof {
            crate::types::value::lemma_attachments_view_push(pre, value.attachments@.last());
            assert(value.attachments@ == pre.push(value.attachments@.last()));
        }
        value.metadata.updated_at = now;
        value.metadata.lifecycle_state = LifecycleState::Active { last_accessed: now };
        self.commit_put(t, key, old_state, &value)
    }

    /// Adds `attachment` to the attachments of `key` in place of the first
    /// attachment with its name, if there is one, modified at `now`.
    pub fn replace_attachment(&mut self, key: &Key, attachment: Attachment, now: Timestamp) -> (r:
        Result<(), DatabaseError>)
        requires
            old(self).wf(),
            key.wf(),
            now.wf(),
        ensures
            final(self).wf(),
            final(self).settings() == old(self).settings(),
            match r {
                Ok(()) => has_active(old(self)@, key@) && final(self)@ == put_entry(
                    old(self)@,
                    key@,
                    with_attachments(
                        old(self)@.entries[key@],
                        replaced_attachments(old(self)@.entries[key@].attachments, attachment@),
                        now,
                    ),
                ),
                Err(DatabaseError::NotFound) => !old(self)@.entries.contains_key(key@)
                    && final(self)@ == old(self)@,
                Err(DatabaseError::Trashed) => has_trashed(old(self)@, key@) && final(self)@
                    == old(self)@,
                Err(DatabaseError::Redb(_)) => kept_or_applied(
                    old(self)@,
                    final(self)@,
                    has_active(old(self)@, key@),
                    put_entry(
                        old(self)@,
                        key@,
                        with_attachments(
                            old(self)@.entries[key@],
                            replaced_attachments(old(self)@.entries[key@].attachments, attachment@),
                            now,
                        ),
                    ),
                ),
                Err(_) => false,
            },
    {
        let t = self.begin()?;
        let fetched_replace = match Self::fetch(&t, key) {
            Ok(f) => f,
            Err(e) => {
                self.abandon(t);
                return Err(e);
            },
        };
        let mut value = match fetched_replace {
            Some(v) => v,
            None => {
                self.abandon(t);
                return Err(DatabaseError::NotFound);
            },
        };
        let old_state = value.metadata.lifecycle_state;
        if let LifecycleState::Trash { .. } = old_state {
            self.abandon(t);
            return Err(DatabaseError::Trashed);
        }
        let ghost atts0 = attachments_view(value.attachments@);
        if let Some(p) = attachment_position(&value.attachments, attachment.filename.as_str()) {
            let ghost pre0 = value.attachments@;
            value.attachments.remove(p);
            proof {
                assert(attachments_view(value.attachments@) =~= attachments_view(pre0).remove(
                    p as int,
                ));
            }
        }
        let ghost pre = value.attachments@;
        let ghost a = attachment@;
        value.attachments.push(attachment);
        proof {
            crate::types::value::lemma_attachments_view_push(pre, value.attachments@.last());
            assert(attachments_view(value.attachments@) == replaced_attachments(atts0, a));
        }
        value.metadata.updated_at = now;
        value.metadata.lifecycle_state = LifecycleState::Active { last_accessed: now };
        self.commit_put(t, key, old_state, &value)
    }

    /// Removes the first attachment named `filename` from `key`, modified at
    /// `now`.
    pub fn remove_attachment(&mut self, key: &Key, filename: &str, now: Timestamp) -> (r: Result<
        (),
        DatabaseError,
    >)
        requires
            old(self).wf(),
            key.wf(),
            now.wf(),
        ensures
            final(self).wf(),
            final(self).settings() == old(self).settings(),
            match r {
                Ok(()) => has_active(old(self)@, key@) && attachment_index(
                    old(self)@.entries[key@].attachments,
                    filename@,
                ) is Some && final(self)@ == put_entry(
                    old(self)@,
                    key@,
                    with_attachments(
                        old(self)@.entries[key@],
                        old(self)@.entries[key@].attachments.remove(
                            attachment_index(old(self)@.entries[key@].attachments, filename@)->0,
                        ),
                        now,
                    ),
                ),
                Err(DatabaseError::NotFound) => !old(self)@.entries.contains_key(key@)
                    && final(self)@ == old(self)@,
                Err(DatabaseError::Trashed) => has_trashed(old(self)@, key@) && final(self)@
                    == old(self)@,
                Err(DatabaseError::AttachmentNotFound(n)) => n@ == filename@ && has_active(
                    old(self)@,
                    key@,
                ) && attachment_index(old(self)@.entries[key@].attachments, filename@) is None
                    && final(self)@ == old(self)@,
                Err(DatabaseError::Redb(_)) => kept_or_applied(
                    old(self)@,
                    final(self)@,
                    has_active(old(self)@, key@) && attachment_index(
                        old(self)@.entries[key@].attachments,
                        filename@,
                    ) is Some,
                    put_entry(
                        old(self)@,
                        key@,
                        with_attachments(
                            old(self)@.entries[key@],
                            old(self)@.entries[key@].attachments.remove(
                                attachment_index(
                                    old(self)@.entries[key@].attachments,
                                    filename@,
                                )->0,
                            ),
                            now,
                        ),
                    ),
                ),
                Err(_) => false,
            },
    {
        let t = self.begin()?;
        let fetched4 = match Self::fetch(&t, key) {
            Ok(f) => f,
            Err(e) => {
                self.abandon(t);
                return Err(e);
            },
        };
        let mut value = match fetched4 {
            Some(v) => v,
            None => {
                self.abandon(t);
                return Err(DatabaseError::NotFound);
            },
        };
        let old_state = value.metadata.lifecycle_state;
        if let LifecycleState::Trash { .. } = old_state {
            self.abandon(t);
            return Err(DatabaseError::Trashed);
        }
        let pos = match attachment_position(&value.attachments, filename) {
            Some(p) => p,
            None => {
                self.abandon(t);
                return Err(DatabaseError::AttachmentNotFound(String::from_str(filename)));
            },
        };
        let ghost pre = value.attachments@;
        value.attachments.remove(pos);
        proof {
            assert(attachments_view(value.attachments@) =~= attachments_view(pre).remove(
                pos as int,
            ));
        }
        value.metadata.updated_at = now;
        value.metadata.lifecycle_state = LifecycleState::Active { last_accessed: now };
        self.commit_put(t, key, old_state, &value)
    }

    /// Renames the attachment `old_filename` of `key` to `new_filename`,
    /// modified at `now`. An attachment already named `new_filename` (when
    /// that is another name) is dropped first; renaming an attachment to its
    /// own name keeps the attachments.
    pub fn rename_attachment(
        &mut self,
        key: &Key,
        old_filename: &str,
        new_filename: &str,
        now: Timestamp,
    ) -> (r: Result<(), DatabaseError>)
        requires
            old(self).wf(),
            key.wf(),
            now.wf(),
        ensures
            final(self).wf(),
            final(self).settings() == old(self).settings(),
            match r {
                Ok(()) => has_active(old(self)@, key@) && renamed_attachments(
                    old(self)@.entries[key@].attachments,
                    old_filename@,
                    new_filename@,
                ) is Some && final(self)@ == put_entry(
                    old(self)@,
                    key@,
                    with_attachments(
                        old(self)@.entries[key@],
                        renamed_attachments(
                            old(self)@.entries[key@].attachments,
                            old_filename@,
                            new_filename@,
                        )->0,
                        now,
                    ),
                ),
                Err(DatabaseError::NotFound) => !old(self)@.entries.contains_key(key@)
                    && final(self)@ == old(self)@,
                Err(DatabaseError::Trashed) => has_trashed(old(self)@, key@) && final(self)@
                    == old(self)@,
                Err(DatabaseError::AttachmentNotFound(n)) => n@ == old_filename@ && has_active(
                    old(self)@,
                    key@,
                ) && renamed_attachments(
                    old(self)@.entries[key@].attachments,
                    old_filename@,
                    new_filename@,
                ) is None && final(self)@ == old(self)@,
                Err(DatabaseError::Redb(_)) => kept_or_applied(
                    old(self)@,
                    final(self)@,
                    has_active(old(self)@, key@) && renamed_attachments(
                        old(self)@.entries[key@].attachments,
                        old_filename@,
                        new_filename@,
                    ) is Some,
                    put_entry(
                        old(self)@,
                        key@,
                        with_attachments(
                            old(self)@.entries[key@],
                            renamed_attachments(
                                old(self)@.entries[key@].attachments,
                                old_filename@,
                                new_filename@,
                            )->0,
                            now,
                        ),
                    ),
                ),
                Err(_) => false,
            },
    {
        let t = self.begin()?;
        let fetched5 = match Self::fetch(&t, key) {
            Ok(f) => f,
            Err(e) => {
                self.abandon(t);
                return Err(e);
            },
        };
        let mut value = match fetched5 {
            Some(v) => v,
            None => {
                self.abandon(t);
                return Err(DatabaseError::NotFound);
            },
        };
        let old_state = value.metadata.lifecycle_state;
        if let LifecycleState::Trash { .. } = old_state {
            self.abandon(t);
            return Err(DatabaseError::Trashed);
        }
        let ghost atts0 = attachments_view(value.attachments@);
        if !str_eq(old_filename, new_filename) {
            if let Some(dst) = attachment_position(&value.attachments, new_filename) {
                let ghost pre = value.attachments@;
                value.attachments.remove(dst);
                proof {
                    assert(attachments_view(value.attachments@) =~= attachments_view(pre).remove(
                        dst as int,
                    ));
                }
            }
        }
        let ghost atts1 = attachments_view(value.attachments@);
        let pos = match attachment_position(&value.attachments, old_filename) {
            Some(p) => p,
            None => {
                self.abandon(t);
                return Err(DatabaseError::AttachmentNotFound(String::from_str(old_filename)));
            },
        };
        let size = value.attachments[pos].size;
        let ghost pre = value.attachments@;
        value.attachments.set(pos, Attachment { filename: String::from_str(new_filename), size });
        proof {
            assert(attachments_view(value.attachments@) =~= atts1.update(
                pos as int,
                (new_filename@, atts1[pos as int].1),
            ));
        }
        value.metadata.updated_at = now;
        value.metadata.lifecycle_state = LifecycleState::Active { last_accessed: now };
        self.commit_put(t, key, old_state, &value)
    }

    /// Sets the thumbnail format version of `key`.
    pub fn update_thumb_version(&mut self, key: &Key, version: u32) -> (r: Result<
        (),
        DatabaseError,
    >)
        requires
            old(self).wf(),
            key.wf(),
        ensures
            final(self).wf(),
            final(self).settings() == old(self).settings(),
            match r {
                Ok(()) => old(self)@.entries.contains_key(key@) && final(self)@ == put_entry(
                    old(self)@,
                    key@,
                    ValueView { thumb_version: version, ..old(self)@.entries[key@] },
                ),
                Err(DatabaseError::NotFound) => !old(self)@.entries.contains_key(key@)
                    && final(self)@ == old(self)@,
                Err(DatabaseError::Redb(_)) => kept_or_applied(
                    old(self)@,
                    final(self)@,
                    old(self)@.entries.contains_key(key@),
                    put_entry(
                        old(self)@,
                        key@,
                        ValueView { thumb_version: version, ..old(self)@.entries[key@] },
                    ),
                ),
                Err(_) => false,
            },
    {
        let t = self.begin()?;
        let fetched6 = match Self::fetch(&t, key) {
            Ok(f) => f,
            Err(e) => {
                self.abandon(t);
                return Err(e);
            },
        };
        let mut value = match fetched6 {
            Some(v) => v,
            None => {
                self.abandon(t);
                return Err(DatabaseError::NotFound);
            },
        };
        let old_state = value.metadata.lifecycle_state;
        value.thumb_version = version;
        self.commit_put(t, key, old_state, &value)
    }

    /// Moves `key` to the trash at `now`.
    pub fn trash(&mut self, key: &Key, now: Timestamp) -> (r: Result<(), DatabaseError>)
        requires
            old(self).wf(),
            key.wf(),
            now.wf(),
        ensures
            final(self).wf(),
            final(self).settings() == old(self).settings(),
            match r {
                Ok(()) => has_active(old(self)@, key@) && final(self)@ == put_entry(
                    old(self)@,
                    key@,
                    trashed(old(self)@.entries[key@], now),
                ),
                Err(DatabaseError::NotFound) => !old(self)@.entries.contains_key(key@)
                    && final(self)@ == old(self)@,
                Err(DatabaseError::Trashed) => has_trashed(old(self)@, key@) && final(self)@
                    == old(self)@,
                Err(DatabaseError::Redb(_)) => kept_or_applied(
                    old(self)@,
                    final(self)@,
                    has_active(old(self)@, key@),
                    put_entry(old(self)@, key@, trashed(old(self)@.entries[key@], now)),
                ),
                Err(_) => false,
            },
    {
        let t = self.begin()?;
        let fetched7 = match Self::fetch(&t, key) {
            Ok(f) => f,
            Err(e) => {
                self.abandon(t);
                return Err(e);
            },
        };
        let mut value = match fetched7 {
            Some(v) => v,
            None => {
                self.abandon(t);
                return Err(DatabaseError::NotFound);
            },
        };
        let old_state = value.metadata.lifecycle_state;
        if let LifecycleState::Trash { .. } = old_state {
            self.abandon(t);
            return Err(DatabaseError::Trashed);
        }
        value.metadata.lifecycle_state = LifecycleState::Trash { trashed_at: now };
        self.commit_put(t, key, old_state, &value)
    }

    /// Brings `key` back from the trash, used at `now`.
    pub fn restore(&mut self, key: &Key, now: Timestamp) -> (r: Result<(), DatabaseError>)
        requires
            old(self).wf(),
            key.wf(),
            now.wf(),
        ensures
            final(self).wf(),
            final(self).settings() == old(self).settings(),
            match r {
                Ok(()) => has_trashed(old(self)@, key@) && final(self)@ == put_entry(
                    old(self)@,
                    key@,
                    refreshed(old(self)@.entries[key@], now),
                ),
                Err(DatabaseError::NotFound) => !old(self)@.entries.contains_key(key@)
                    && final(self)@ == old(self)@,
                Err(DatabaseError::NotTrashed) => has_active(old(self)@, key@) && final(self)@
                    == old(self)@,
                Err(DatabaseError::Redb(_)) => kept_or_applied(
                    old(self)@,
                    final(self)@,
                    has_trashed(old(self)@, key@),
                    put_entry(old(self)@, key@, refreshed(old(self)@.entries[key@], now)),
                ),
                Err(_) => false,
            },
    {
        let t = self.begin()?;
        let fetched8 = match Self::fetch(&t, key) {
            Ok(f) => f,
            Err(e) => {
                self.abandon(t);
                return Err(e);
            },
        };
        let mut value = match fetched8 {
            Some(v) => v,
            None => {
                self.abandon(t);
                return Err(DatabaseError::NotFound);
            },
        };
        let old_state = value.metadata.lifecycle_state;
        if let LifecycleState::Active { .. } = old_state {
            self.abandon(t);
            return Err(DatabaseError::NotTrashed);
        }
        value.metadata.lifecycle_state = LifecycleState::Active { last_accessed: now };
        self.commit_put(t, key, old_state, &value)
    }

    /// Removes `key` (in state `state`) and its index entry.
    fn drop_key(t: &mut redb::WriteTransaction, key: &Key, state: LifecycleState) -> (r: Result<
        (),
        DatabaseError,
    >)
        requires
            txn_wf(*old(t)),
            key.wf(),
            txn_view(*old(t)).entries.contains_key(key@),
            txn_view(*old(t)).entries[key@].metadata.lifecycle_state == state,
        ensures
            wt_origin(*final(t)) == wt_origin(*old(t)),
            r is Ok ==> txn_view(*final(t)) == without_entry(txn_view(*old(t)), key@),
            r is Ok ==> txn_wf(*final(t)),
            r matches Err(e) ==> e is Redb,
    {
        let ghost v0 = txn_view(*t);
        let ghost m0 = wt_main(*t);
        proof {
            lemma_tables_distinct();
        }
        let (table, ttl) = ttl_key_of(key, state);
        table.remove(t, &ttl)?;
        match main_remove(t, key.as_str()) {
            Ok(_) => {},
            Err(e) => return Err(DatabaseError::Redb(e)),
        }
        proof {
            lemma_decode_remove(m0, key@);
            let w = without_entry(v0, key@);
            let v1 = txn_view(*t);
            assert(v1.entries =~= w.entries);
            assert(v1.active =~= w.active);
            assert(v1.trash =~= w.trash);
        }
        Ok(())
    }

    /// Deletes `key` for good.
    pub fn purge(&mut self, key: &Key) -> (r: Result<(), DatabaseError>)
        requires
            old(self).wf(),
            key.wf(),
        ensures
            final(self).wf(),
            final(self).settings() == old(self).settings(),
            match r {
                Ok(()) => old(self)@.entries.contains_key(key@) && final(self)@ == without_entry(
                    old(self)@,
                    key@,
                ),
                Err(DatabaseError::NotFound) => !old(self)@.entries.contains_key(key@)
                    && final(self)@ == old(self)@,
                Err(DatabaseError::Redb(_)) => kept_or_applied(
                    old(self)@,
                    final(self)@,
                    old(self)@.entries.contains_key(key@),
                    without_entry(old(self)@, key@),
                ),
                Err(_) => false,
            },
    {
        let ghost v0 = self@;
        proof {
            self.lemma_wf();
        }
        let mut t = self.begin()?;
        let fetched9 = match Self::fetch(&t, key) {
            Ok(f) => f,
            Err(e) => {
                self.abandon(t);
                return Err(e);
            },
        };
        let value = match fetched9 {
            Some(v) => v,
            None => {
                self.abandon(t);
                return Err(DatabaseError::NotFound);
            },
        };
        if let Err(e) = Self::drop_key(&mut t, key, value.metadata.lifecycle_state) {
            self.abandon(t);
            return Err(e);
        }
        proof {
            lemma_without_entry(v0, key@);
        }
        self.finish(t)
    }

    /// Renames `src` to `dst` at `now`, replacing a value at `dst`. An active
    /// key counts as used at `now`; a trashed key keeps its trash time.
    pub fn rename(&mut self, src: &Key, dst: &Key, now: Timestamp) -> (r: Result<
        (),
        DatabaseError,
    >)
        requires
            old(self).wf(),
            src.wf(),
            dst.wf(),
            now.wf(),
        ensures
            final(self).wf(),
            final(self).settings() == old(self).settings(),
            match r {
                Ok(()) => old(self)@.entries.contains_key(src@) && src@ != dst@ && final(self)@
                    == renamed_view(old(self)@, src@, dst@, now),
                Err(DatabaseError::NotFound) => (!old(self)@.entries.contains_key(src@) || src@
                    == dst@) && final(self)@ == old(self)@,
                Err(DatabaseError::Redb(_)) => kept_or_applied(
                    old(self)@,
                    final(self)@,
                    old(self)@.entries.contains_key(src@) && src@ != dst@,
                    renamed_view(old(self)@, src@, dst@, now),
                ),
                Err(_) => false,
            },
    {
        let ghost v0 = self@;
        proof {
            self.lemma_wf();
        }
        let mut t = self.begin()?;
        let existing = match Self::fetch(&t, dst) {
            Ok(f) => f,
            Err(e) => {
                self.abandon(t);
                return Err(e);
            },
        };
        if let Some(dv) = existing {
            if let Err(e) = Self::drop_key(&mut t, dst, dv.metadata.lifecycle_state) {
                self.abandon(t);
                return Err(e);
            }
            proof {
                lemma_without_entry(v0, dst@);
            }
        }
        let ghost v1 = txn_view(t);
        assert(v1 == without_entry(v0, dst@));
        let fetched10 = match Self::fetch(&t, src) {
            Ok(f) => f,
            Err(e) => {
                self.abandon(t);
                return Err(e);
            },
        };
        let mut value = match fetched10 {
            Some(v) => v,
            None => {
                self.abandon(t);
                return Err(DatabaseError::NotFound);
            },
        };
        let old_state = value.metadata.lifecycle_state;
        if let Err(e) = Self::drop_key(&mut t, src, old_state) {
            self.abandon(t);
            return Err(e);
        }
        proof {
            lemma_without_entry(v0, dst@);
            lemma_without_entry(v1, src@);
        }
        if let LifecycleState::Active { .. } = old_state {
            value.metadata.lifecycle_state = LifecycleState::Active { last_accessed: now };
        }
        if let Err(e) = Self::insert_new(&mut t, dst, &value) {
            self.abandon(t);
            return Err(e);
        }
        proof {
            lemma_with_entry(without_entry(v1, src@), dst@, value@);
        }
        self.finish(t)
    }

    /// Moves to the trash, at `now`, the active keys unused for the trash
    /// time-to-live, deletes the keys trashed for the purge time-to-live, and
    /// records `now` as the time maintenance last ran. Each list of keys
    /// comes in the order of the index (oldest first).
    pub fn gc(&mut self, now: Timestamp) -> (r: Result<GcResult, DatabaseError>)
        requires
            old(self).wf(),
            now.wf(),
        ensures
            final(self).wf(),
            final(self).settings() == old(self).settings(),
            match r {
                Ok(res) => gc_done(old(self)@, final(self)@, now, old(self).settings())
                    && keys_in_order(
                    res.trashed@,
                    old(self)@.active.filter(
                        |e: Seq<u8>| entry_expired(e, now, old(self).settings().trash_ttl),
                    ),
                ) && keys_in_order(
                    res.purged@,
                    old(self)@.trash.filter(
                        |e: Seq<u8>| entry_expired(e, now, old(self).settings().purge_ttl),
                    ),
                ),
                Err(DatabaseError::Redb(_)) => final(self)@ == old(self)@ || gc_done(
                    old(self)@,
                    final(self)@,
                    now,
                    old(self).settings(),
                ),
                Err(_) => false,
            },
    {
        let ghost v0 = self@;
        let ghost s0 = self.saved;
        proof {
            self.lemma_wf();
        }
        let rt = match begin_read(&self.db) {
            Ok(t) => t,
            Err(e) => return Err(DatabaseError::Redb(e)),
        };
        proof {
            assert(rt_ttl(rt, ACTIVE_EXPIRY@) == v0.active);
            assert(rt_ttl(rt, TRASH_EXPIRY@) == v0.trash);
            lemma_tables_distinct();
        }
        let to_trash = TtlTable::new(ACTIVE_EXPIRY).expired_keys(&rt, now, self.saved.trash_ttl)?;
        let to_purge = TtlTable::new(TRASH_EXPIRY).expired_keys(&rt, now, self.saved.purge_ttl)?;
        let ghost ks1 = keys_view(to_trash@);
        let ghost ks2 = keys_view(to_purge@);
        let ghost set1 = v0.active.filter(|e: Seq<u8>| entry_expired(e, now, s0.trash_ttl));
        let ghost set2 = v0.trash.filter(|e: Seq<u8>| entry_expired(e, now, s0.purge_ttl));
        let ghost es1 = choose|es: Seq<Seq<u8>>|
            sorted_strict(es) && es.to_set() == set1 && ks1 == entry_keys(es);
        let ghost es2 = choose|es: Seq<Seq<u8>>|
            sorted_strict(es) && es.to_set() == set2 && ks2 == entry_keys(es);
        proof {
            lemma_due_keys(v0, es1, ks1, now, s0.trash_ttl, false);
            lemma_due_keys(v0, es2, ks2, now, s0.purge_ttl, true);
        }
        let ghost e1 = trash_step(v0.entries, ks1, ks1.len() as int, now);
        let mut t = self.begin()?;
        let mut trashed_keys: Vec<Key> = Vec::new();
        let mut i: usize = 0;
        while i < to_trash.len()
            invariant
                wt_origin(t) == self.db,
                i <= to_trash@.len(),
                ks1 == keys_view(to_trash@),
                forall|j: int|
                    0 <= j < ks1.len() ==> v0.entries.contains_key(#[trigger] ks1[j])
                        && trash_due(v0.entries[ks1[j]], now, s0.trash_ttl),
                ks1.no_duplicates(),
                view_wf(v0),
                txn_wf(t),
                consistent(txn_view(t)),
                txn_view(t).meta == v0.meta,
                txn_view(t).entries == trash_step(v0.entries, ks1, i as int, now),
                keys_view(trashed_keys@) == ks1.subrange(0, i as int),
                now.wf(),
                self.contents_wf(),
                self@ == old(self)@,
                self.saved == old(self).saved,
            decreases to_trash@.len() - i,
        {
            let key = &to_trash[i];
            let ghost cur = txn_view(t);
            let ghost k = key@;
            proof {
                assert(ks1[i as int] == k);
                assert(!ks1.subrange(0, i as int).contains(k)) by {
                    if ks1.subrange(0, i as int).contains(k) {
                        let j = choose|j: int| 0 <= j < i && ks1.subrange(0, i as int)[j] == k;
                        assert(ks1[j] == ks1[i as int]);
                    }
                }
                assert(cur.entries[k] == v0.entries[k]);
                lemma_view_wf(wt_main(t), wt_ttl(t, ACTIVE_EXPIRY@), wt_ttl(t, TRASH_EXPIRY@), wt_meta(t));
            }
            let ghost pre_keys = trashed_keys@;
            let fetched = match Self::fetch(&t, key) {
                Ok(f) => f,
                Err(e) => {
                    self.abandon(t);
                    return Err(e);
                },
            };
            match fetched {
                Some(mut value) => {
                    let old_state = value.metadata.lifecycle_state;
                    if let LifecycleState::Active { .. } = old_state {
                        value.metadata.lifecycle_state = LifecycleState::Trash { trashed_at: now };
                        assert(value@ == trashed(v0.entries[k], now));
                        if let Err(e) = Self::replace(&mut t, key, old_state, &value) {
                            self.abandon(t);
                            return Err(e);
                        }
                        proof {
                            lemma_put_entry(cur, k, value@);
                        }
                        trashed_keys.push(key.clone());
                    } else {
                        assert(false);
                    }
                },
                None => {
                    assert(false);
                },
            }
            proof {
                assert(ks1.subrange(0, i + 1) =~= ks1.subrange(0, i as int).push(k));
                assert(keys_view(trashed_keys@) =~= keys_view(pre_keys).push(k));
                lemma_prefix_contains(ks1, i as int);
                assert(txn_view(t).entries =~= cur.entries.insert(k, trashed(v0.entries[k], now)));
                assert(txn_view(t).entries =~= trash_step(v0.entries, ks1, i + 1, now));
            }
            i = i + 1;
        }
        proof {
            assert(ks1.subrange(0, ks1.len() as int) =~= ks1);
            assert forall|k: Seq<char>|
                #[trigger] ks1.contains(k) <==> v0.entries.contains_key(k) && trash_due(
                    v0.entries[k],
                    now,
                    s0.trash_ttl,
                ) by {
                if ks1.contains(k) {
                    let j = choose|j: int| 0 <= j < ks1.len() && ks1[j] == k;
                    assert(ks1[j] == k);
                }
            }
            assert forall|k: Seq<char>|
                #[trigger] ks2.contains(k) <==> v0.entries.contains_key(k) && purge_due(
                    v0.entries[k],
                    now,
                    s0.purge_ttl,
                ) by {
                if ks2.contains(k) {
                    let j = choose|j: int| 0 <= j < ks2.len() && ks2[j] == k;
                    assert(ks2[j] == k);
                }
            }
        }
        let mut purged_keys: Vec<Key> = Vec::new();
        let mut i: usize = 0;
        while i < to_purge.len()
            invariant
                wt_origin(t) == self.db,
                i <= to_purge@.len(),
                ks2 == keys_view(to_purge@),
                forall|j: int|
                    0 <= j < ks2.len() ==> v0.entries.contains_key(#[trigger] ks2[j])
                        && purge_due(v0.entries[ks2[j]], now, s0.purge_ttl),
                ks2.no_duplicates(),
                forall|k: Seq<char>|
                    v0.entries.contains_key(k) && !trash_due(v0.entries[k], now, s0.trash_ttl)
                        ==> #[trigger] e1.contains_key(k),
                forall|k: Seq<char>|
                    v0.entries.contains_key(k) && !trash_due(v0.entries[k], now, s0.trash_ttl)
                        ==> #[trigger] e1[k] == v0.entries[k],
                e1 == trash_step(v0.entries, ks1, ks1.len() as int, now),
                forall|k: Seq<char>|
                    #[trigger] ks1.contains(k) <==> v0.entries.contains_key(k) && trash_due(
                        v0.entries[k],
                        now,
                        s0.trash_ttl,
                    ),
                forall|k: Seq<char>|
                    #[trigger] ks2.contains(k) <==> v0.entries.contains_key(k) && purge_due(
                        v0.entries[k],
                        now,
                        s0.purge_ttl,
                    ),
                txn_wf(t),
                consistent(txn_view(t)),
                txn_view(t).meta == v0.meta,
                txn_view(t).entries == purge_step(e1, ks2, i as int),
                keys_view(purged_keys@) == ks2.subrange(0, i as int),
                self.contents_wf(),
                self@ == old(self)@,
                self.saved == old(self).saved,
            decreases to_purge@.len() - i,
        {
            let key = &to_purge[i];
            let ghost cur = txn_view(t);
            let ghost k = key@;
            proof {
                assert(ks2[i as int] == k);
                assert(!ks2.subrange(0, i as int).contains(k)) by {
                    if ks2.subrange(0, i as int).contains(k) {
                        let j = choose|j: int| 0 <= j < i && ks2.subrange(0, i as int)[j] == k;
                        assert(ks2[j] == ks2[i as int]);
                    }
                }
                assert(v0.entries.contains_key(k));
                assert(purge_due(v0.entries[k], now, s0.purge_ttl));
                assert(!trash_due(v0.entries[k], now, s0.trash_ttl));
                assert(e1.contains_key(k));
                assert(e1[k] == v0.entries[k]);
                assert(cur.entries.contains_key(k));
                assert(cur.entries[k] == v0.entries[k]);
                lemma_view_wf(wt_main(t), wt_ttl(t, ACTIVE_EXPIRY@), wt_ttl(t, TRASH_EXPIRY@), wt_meta(t));
            }
            let ghost pre_keys = purged_keys@;
            let fetched = match Self::fetch(&t, key) {
                Ok(f) => f,
                Err(e) => {
                    self.abandon(t);
                    return Err(e);
                },
            };
            match fetched {
                Some(value) => {
                    if let LifecycleState::Trash { .. } = value.metadata.lifecycle_state {
                        if let Err(e) = Self::drop_key(&mut t, key, value.metadata.lifecycle_state) {
                            self.abandon(t);
                            return Err(e);
                        }
                        proof {
                            lemma_without_entry(cur, k);
                        }
                        purged_keys.push(key.clone());
                    } else {
                        assert(false);
                    }
                },
                None => {
                    assert(false);
                },
            }
            proof {
                assert(ks2.subrange(0, i + 1) =~= ks2.subrange(0, i as int).push(k));
                assert(keys_view(purged_keys@) =~= keys_view(pre_keys).push(k));
                lemma_prefix_contains(ks2, i as int);
                assert(txn_view(t).entries =~= cur.entries.remove(k));
                assert(txn_view(t).entries =~= purge_step(e1, ks2, i + 1));
            }
            i = i + 1;
        }
        proof {
            assert(ks2.subrange(0, ks2.len() as int) =~= ks2);
            assert(txn_view(t).entries =~= gc_entries(v0.entries, now, s0));
        }
        let record = MaintenanceMetadata { last_run_at: Some(now) };
        let text = record.to_json();
        let ghost before = txn_view(t);
        match meta_insert(&mut t, METADATA_KEY_MAINTENANCE, text.as_str()) {
            Ok(()) => {},
            Err(e) => {
                self.abandon(t);
                return Err(DatabaseError::Redb(e));
            },
        }
        proof {
            assert(txn_view(t).entries == before.entries);
            assert(txn_view(t).active == before.active);
            assert(txn_view(t).trash == before.trash);
            assert(txn_view(t).entries =~= gc_entries(v0.entries, now, s0));
        }
        self.finish(t)?;
        proof {
            assert(keys_view(trashed_keys@) == entry_keys(es1));
            assert(keys_view(purged_keys@) == entry_keys(es2));
            assert(es1.to_set() == set1);
            assert(es2.to_set() == set2);
        }
        Ok(GcResult { trashed: trashed_keys, purged: purged_keys })
    }

    /// Checks every stored value: it decodes under a valid key and its
    /// index entry is present.
    fn check_main(rt: &redb::ReadTransaction) -> (r: Result<(), DatabaseError>)
        ensures
            r is Ok ==> main_ok(
                rt_main(*rt),
                rt_ttl(*rt, ACTIVE_EXPIRY@),
                rt_ttl(*rt, TRASH_EXPIRY@),
            ),
            r matches Err(DatabaseError::Corrupted) ==> !main_ok(
                rt_main(*rt),
                rt_ttl(*rt, ACTIVE_EXPIRY@),
                rt_ttl(*rt, TRASH_EXPIRY@),
            ),
            r matches Err(e) ==> e is Redb || e is Corrupted,
    {
        let all = match read_main_all(rt) {
            Ok(v) => v,
            Err(e) => return Err(DatabaseError::Redb(e)),
        };
        let ghost m = rt_main(*rt);
        let ghost a = rt_ttl(*rt, ACTIVE_EXPIRY@);
        let ghost tr = rt_ttl(*rt, TRASH_EXPIRY@);
        proof {
            lemma_tables_distinct();
        }
        let mut i: usize = 0;
        while i < all.len()
            invariant
                i <= all@.len(),
                m == rt_main(*rt),
                a == rt_ttl(*rt, ACTIVE_EXPIRY@),
                tr == rt_ttl(*rt, TRASH_EXPIRY@),
                ACTIVE_EXPIRY@ != TRASH_EXPIRY@,
                forall|j: int|
                    0 <= j < all@.len() ==> m.contains_key(#[trigger] all@[j].0@) && m[all@[j].0@]
                        == all@[j].1@,
                forall|j: int| 0 <= j < i ==> main_entry_ok(m, a, tr, #[trigger] all@[j].0@),
            decreases all@.len() - i,
        {
            let ghost k = all@[i as int].0@;
            proof {
                assert(m.contains_key(k));
            }
            let key = match Key::try_from(all[i].0.as_str()) {
                Ok(k) => k,
                Err(_) => {
                    proof {
                        assert(!main_entry_ok(m, a, tr, k));
                    }
                    return Err(DatabaseError::Corrupted);
                },
            };
            if !str_eq(key.as_str(), all[i].0.as_str()) {
                proof {
                    assert(!main_entry_ok(m, a, tr, k));
                }
                return Err(DatabaseError::Corrupted);
            }
            let v = match VersionedValue::from_bytes(all[i].1.as_slice()) {
                Ok(VersionedValue::V1(v)) => v,
                Err(_) => {
                    proof {
                        assert(!main_entry_ok(m, a, tr, k));
                    }
                    return Err(DatabaseError::Corrupted);
                },
            };
            let (table, ttl) = ttl_key_of(&key, v.metadata.lifecycle_state);
            let entry = ttl.as_bytes();
            match read_ttl_contains(rt, table.name, entry.as_slice()) {
                Ok(true) => {},
                Ok(false) => {
                    proof {
                        assert(!main_entry_ok(m, a, tr, k));
                    }
                    return Err(DatabaseError::Corrupted);
                },
                Err(e) => return Err(DatabaseError::Redb(e)),
            }
            proof {
                assert(main_entry_ok(m, a, tr, all@[i as int].0@));
            }
            i = i + 1;
        }
        proof {
            assert forall|k: Seq<char>| #[trigger] m.contains_key(k) implies main_entry_ok(
                m,
                a,
                tr,
                k,
            ) by {
                let j = choose|j: int| 0 <= j < all@.len() && #[trigger] all@[j].0@ == k;
                assert(main_entry_ok(m, a, tr, all@[j].0@));
            }
        }
        Ok(())
    }

    /// Checks every entry of an index: it is well-formed and names a stored
    /// key in the state that the index stands for.
    fn check_index(rt: &redb::ReadTransaction, name: &'static str, in_trash: bool) -> (r: Result<
        (),
        DatabaseError,
    >)
        requires
            name@.len() > 0,
        ensures
            r is Ok ==> index_ok(rt_main(*rt), rt_ttl(*rt, name@), in_trash),
            r matches Err(DatabaseError::Corrupted) ==> !index_ok(
                rt_main(*rt),
                rt_ttl(*rt, name@),
                in_trash,
            ),
            r matches Err(e) ==> e is Redb || e is Corrupted,
    {
        let es = match read_ttl_all(rt, name) {
            Ok(v) => v,
            Err(e) => return Err(DatabaseError::Redb(e)),
        };
        let ghost m = rt_main(*rt);
        let ghost esv = es.deep_view();
        let mut i: usize = 0;
        while i < es.len()
            invariant
                i <= es@.len(),
                esv == es.deep_view(),
                esv.to_set() == rt_ttl(*rt, name@),
                m == rt_main(*rt),
                forall|j: int| 0 <= j < i ==> index_entry_ok(m, #[trigger] esv[j], in_trash),
            decreases es@.len() - i,
        {
            let ghost e = esv[i as int];
            proof {
                assert(esv[i as int] == es@[i as int]@);
                assert(esv.to_set().contains(e));
                assert(rt_ttl(*rt, name@).contains(e));
            }
            let tk = match TtlKey::from_bytes(es[i].as_slice()) {
                Some(tk) => tk,
                None => {
                    proof {
                        assert(!index_entry_ok(m, e, in_trash));
                    }
                    return Err(DatabaseError::Corrupted);
                },
            };
            let canon = tk.as_bytes();
            if !same_bytes(canon.as_slice(), es[i].as_slice()) {
                proof {
                    assert(!index_entry_ok(m, e, in_trash));
                }
                return Err(DatabaseError::Corrupted);
            }
            let bytes = match read_main_get(rt, tk.key.as_str()) {
                Ok(Some(b)) => b,
                Ok(None) => {
                    proof {
                        assert(!index_entry_ok(m, e, in_trash));
                    }
                    return Err(DatabaseError::Corrupted);
                },
                Err(e) => return Err(DatabaseError::Redb(e)),
            };
            let v = match VersionedValue::from_bytes(bytes.as_slice()) {
                Ok(VersionedValue::V1(v)) => v,
                Err(_) => {
                    proof {
                        assert(!index_entry_ok(m, e, in_trash));
                    }
                    return Err(DatabaseError::Corrupted);
                },
            };
            let matches_state = match v.metadata.lifecycle_state {
                LifecycleState::Active { last_accessed } => !in_trash && last_accessed.same(
                    &tk.timestamp,
                ),
                LifecycleState::Trash { trashed_at } => in_trash && trashed_at.same(&tk.timestamp),
            };
            if !matches_state {
                proof {
                    assert(!index_entry_ok(m, e, in_trash));
                }
                return Err(DatabaseError::Corrupted);
            }
            proof {
                assert(index_entry_ok(m, esv[i as int], in_trash));
            }
            i = i + 1;
        }
        proof {
            assert forall|e: Seq<u8>| #[trigger] rt_ttl(*rt, name@).contains(e) implies index_entry_ok(
                m,
                e,
                in_trash,
            ) by {
                assert(esv.to_set().contains(e));
                let j = choose|j: int| 0 <= j < esv.len() && esv[j] == e;
                assert(index_entry_ok(m, esv[j], in_trash));
            }
        }
        Ok(())
    }

    /// Checks that an opened database holds well-formed, consistent data.
    fn check(db: &redb::Database) -> (r: Result<(), DatabaseError>)
        ensures
            r is Ok ==> stored_sound(*db) && main_wf(db_main(*db)) && ttl_wf(
                db_ttl(*db, ACTIVE_EXPIRY@),
            ) && ttl_wf(db_ttl(*db, TRASH_EXPIRY@)) && consistent(view_of(*db)),
            r matches Err(DatabaseError::Corrupted) ==> !stored_sound(*db),
            r matches Err(e) ==> e is Redb || e is Corrupted,
    {
        let rt = match begin_read(db) {
            Ok(t) => t,
            Err(e) => return Err(DatabaseError::Redb(e)),
        };
        proof {
            lemma_tables_distinct();
            assert(rt_ttl(rt, ACTIVE_EXPIRY@) == db_ttl(*db, ACTIVE_EXPIRY@));
            assert(rt_ttl(rt, TRASH_EXPIRY@) == db_ttl(*db, TRASH_EXPIRY@));
        }
        Self::check_main(&rt)?;
        Self::check_index(&rt, ACTIVE_EXPIRY, false)?;
        Self::check_index(&rt, TRASH_EXPIRY, true)?;
        proof {
            assert(rt_ttl(rt, ACTIVE_EXPIRY@) == db_ttl(*db, ACTIVE_EXPIRY@));
            assert(rt_ttl(rt, TRASH_EXPIRY@) == db_ttl(*db, TRASH_EXPIRY@));
            lemma_checked_consistent(
                db_main(*db),
                db_ttl(*db, ACTIVE_EXPIRY@),
                db_ttl(*db, TRASH_EXPIRY@),
                db_meta(*db),
            );
        }
        Ok(())
    }

    /// Opens (creating if missing) the database file `keva.redb` in
    /// `config.base_path`, whose directory must exist, with the tables the
    /// store uses, and checks what it holds through
    /// [`KeyDatabase::from_database`]: `Corrupted` comes only from there,
    /// for stored data that is not sound. What the file holds is the disk's,
    /// so no clause here names it.
    pub fn new(config: Config) -> (r: Result<KeyDatabase, DatabaseError>)
        requires
            config.saved.trash_ttl.wf(),
            config.saved.purge_ttl.wf(),
        ensures
            r matches Ok(d) ==> d.wf() && d.settings() == config.saved,
            r matches Err(e) ==> e is Redb || e is Corrupted,
    {
        let path = config.db_path();
        let mut db = match redb_create(path.as_str()) {
            Ok(d) => d,
            Err(e) => return Err(DatabaseError::Redb(e)),
        };
        let mut t = match begin_write(&mut db) {
            Ok(t) => t,
            Err(e) => return Err(DatabaseError::Redb(e)),
        };
        match main_open(&mut t) {
            Ok(()) => {},
            Err(e) => return Err(DatabaseError::Redb(e)),
        }
        proof {
            lemma_tables_distinct();
        }
        TtlTable::new(ACTIVE_EXPIRY).init(&mut t)?;
        TtlTable::new(TRASH_EXPIRY).init(&mut t)?;
        match commit(t, &mut db) {
            Ok(()) => {},
            Err(e) => return Err(DatabaseError::Redb(e)),
        }
        Self::from_database(db, config.saved)
    }

    /// The store over the opened database `db` (with no write transaction
    /// alive), with the settings `saved`, once its data is checked: the
    /// data is sound, or `Corrupted` is returned (`Redb` where a read
    /// fails).
    pub fn from_database(db: redb::Database, saved: SavedConfig) -> (r: Result<KeyDatabase, DatabaseError>)
        requires
            db_write_free(db),
            saved.trash_ttl.wf(),
            saved.purge_ttl.wf(),
        ensures
            r matches Ok(d) ==> d.wf() && d.settings() == saved && d@ == view_of(db) && stored_sound(db),
            r matches Err(DatabaseError::Corrupted) ==> !stored_sound(db),
            r matches Err(e) ==> e is Redb || e is Corrupted,
    {
        Self::check(&db)?;
        Ok(KeyDatabase { db, saved })
    }

    /// Whether the index of the trash (`in_trash`) or of the active keys
    /// holds the entry `ttl_key`.
    pub fn has_index_entry(&self, in_trash: bool, ttl_key: &TtlKey) -> (r: Result<bool, DatabaseError>)
        requires
            self.wf(),
        ensures
            r matches Ok(b) ==> b == (if in_trash {
                self@.trash
            } else {
                self@.active
            }).contains(ttl_bytes(ttl_key.timestamp, ttl_key.key@)),
            r matches Err(e) ==> e is Redb,
    {
        let t = match begin_read(&self.db) {
            Ok(t) => t,
            Err(e) => return Err(DatabaseError::Redb(e)),
        };
        proof {
            lemma_tables_distinct();
            assert(rt_ttl(t, ACTIVE_EXPIRY@) == db_ttl(self.db, ACTIVE_EXPIRY@));
            assert(rt_ttl(t, TRASH_EXPIRY@) == db_ttl(self.db, TRASH_EXPIRY@));
        }
        let name = if in_trash {
            TRASH_EXPIRY
        } else {
            ACTIVE_EXPIRY
        };
        let entry = ttl_key.as_bytes();
        match read_ttl_contains(&t, name, entry.as_slice()) {
            Ok(b) => Ok(b),
            Err(e) => Err(DatabaseError::Redb(e)),
        }
    }

    /// Whether maintenance is due at `now`, from its record as read: it
    /// never ran, or `interval` has passed since it last ran (an unreadable
    /// record counts as none). `Redb` where the read fails.
    pub fn maintenance_due_now(&self, now: Timestamp, interval: TimeSpan) -> (r: Result<
        bool,
        DatabaseError,
    >)
        requires
            self.wf(),
            now.wf(),
            interval.wf(),
        ensures
            r matches Ok(b) ==> b == maintenance_due(recorded_run(self@.meta), now, interval),
            r matches Err(e) ==> e is Redb,
    {
        let rt = match begin_read(&self.db) {
            Ok(t) => t,
            Err(e) => return Err(DatabaseError::Redb(e)),
        };
        match read_meta_get(&rt, METADATA_KEY_MAINTENANCE) {
            Ok(Some(text)) => Ok(maintenance_due_for(Some(text.as_str()), now, interval)),
            Ok(None) => Ok(maintenance_due_for(None, now, interval)),
            Err(e) => Err(DatabaseError::Redb(e)),
        }
    }

    /// Whether maintenance should run at `now`: it never ran (or its record
    /// cannot be read), or `interval` has passed since it last ran. The
    /// answer is [`KeyDatabase::maintenance_due_now`]'s, and `true` where
    /// the read fails.
    pub fn should_run_maintenance(&self, now: Timestamp, interval: TimeSpan) -> (r: bool)
        requires
            self.wf(),
            now.wf(),
            interval.wf(),
        ensures
            maintenance_due(recorded_run(self@.meta), now, interval) ==> r,
    {
        match self.maintenance_due_now(now, interval) {
            Ok(b) => b,
            Err(_) => true,
        }
    }
}

} // verus!

verus! {

/// A key holds the value last written to it: after writing `nv` to `k`, the
/// value of `k` is `nv`, and every other key keeps its value.
pub proof fn lemma_read_after_write(v: DbView, k: Seq<char>, nv: ValueView)
    ensures
        put_entry(v, k, nv).entries == v.entries.insert(k, nv),
        with_entry(v, k, nv).entries == v.entries.insert(k, nv),
        without_entry(v, k).entries == v.entries.remove(k),
{
    assert(put_entry(v, k, nv).entries =~= v.entries.insert(k, nv));
}

/// A second write to a key replaces the first: writing `a` then `b` to `k`
/// leaves the content as writing `b` alone does, index included.
pub proof fn lemma_write_twice(v: DbView, k: Seq<char>, a: ValueView, b: ValueView)
    requires
        consistent(v),
        view_wf(v),
        valid_key_chars(k),
        metadata_wf(a.metadata),
    ensures
        put_entry(put_entry(v, k, a), k, b) == put_entry(v, k, b),
{
    let w = without_entry(v, k);
    lemma_without_entry(v, k);
    let sa = a.metadata.lifecycle_state;
    let ea = state_entry(k, sa);
    lemma_state_entry(k, sa);
    assert(!w.active.contains(ea)) by {
        if w.active.contains(ea) {
            assert(w.entries.contains_key(entry_key(ea)));
        }
    }
    assert(!w.trash.contains(ea)) by {
        if w.trash.contains(ea) {
            assert(w.entries.contains_key(entry_key(ea)));
        }
    }
    let x = with_entry(w, k, a);
    assert(without_entry(x, k).entries =~= w.entries);
    assert(without_entry(x, k).active =~= w.active);
    assert(without_entry(x, k).trash =~= w.trash);
    assert(without_entry(x, k) == w);
}

/// Trashing a key and restoring it gives back its content, active from the
/// restore: the content is as if the key had only been used at `t2`.
pub proof fn lemma_trash_then_restore(v: DbView, k: Seq<char>, t1: Timestamp, t2: Timestamp)
    requires
        consistent(v),
        view_wf(v),
        has_active(v, k),
        t1.wf(),
    ensures
        has_trashed(put_entry(v, k, trashed(v.entries[k], t1)), k),
        put_entry(
            put_entry(v, k, trashed(v.entries[k], t1)),
            k,
            refreshed(put_entry(v, k, trashed(v.entries[k], t1)).entries[k], t2),
        ) == put_entry(v, k, refreshed(v.entries[k], t2)),
{
    let a = trashed(v.entries[k], t1);
    lemma_read_after_write(v, k, a);
    assert(refreshed(a, t2) == refreshed(v.entries[k], t2));
    lemma_write_twice(v, k, a, refreshed(v.entries[k], t2));
}

/// After `create`, reading the key gives a fresh value: active since the
/// creation time, created and updated then, with no attachments.
pub proof fn lemma_get_after_create(v: DbView, k: Seq<char>, now: Timestamp)
    ensures
        with_entry(v, k, fresh_value(now)).entries.contains_key(k),
        with_entry(v, k, fresh_value(now)).entries[k] == fresh_value(now),
{
}

/// After `purge`, the key is gone and every other key keeps its value.
pub proof fn lemma_purge_removes(v: DbView, k: Seq<char>)
    ensures
        !without_entry(v, k).entries.contains_key(k),
        forall|k2: Seq<char>|
            k2 != k && v.entries.contains_key(k2) ==> #[trigger] without_entry(v, k).entries[k2]
                == v.entries[k2],
{
}

/// After renaming `src` to `dst`, `src` is gone, `dst` holds what `src`
/// held (an active key counts as used at `now`), and every other key keeps
/// its value.
pub proof fn lemma_rename_moves(v: DbView, src: Seq<char>, dst: Seq<char>, now: Timestamp)
    requires
        v.entries.contains_key(src),
        src != dst,
    ensures
        !renamed_view(v, src, dst, now).entries.contains_key(src),
        renamed_view(v, src, dst, now).entries[dst] == moved(v.entries[src], now),
        forall|k: Seq<char>|
            k != src && k != dst && v.entries.contains_key(k) ==> #[trigger] renamed_view(
                v,
                src,
                dst,
                now,
            ).entries[k] == v.entries[k],
{
}

/// Renaming moves the value to the new name, keeping its attachments,
/// thumbnail version and times, and counts as a use of an active key: the
/// destination is then active since the rename, with its index entry at
/// that time; a trashed key stays trashed as it was.
pub proof fn lemma_rename_counts_as_use(v: DbView, src: Seq<char>, dst: Seq<char>, now: Timestamp)
    requires
        v.entries.contains_key(src),
        src != dst,
    ensures
        ({
            let w = renamed_view(v, src, dst, now);
            let old_v = v.entries[src];
            &&& w.entries.contains_key(dst)
            &&& !w.entries.contains_key(src)
            &&& w.entries[dst].attachments == old_v.attachments
            &&& w.entries[dst].thumb_version == old_v.thumb_version
            &&& w.entries[dst].metadata.created_at == old_v.metadata.created_at
            &&& w.entries[dst].metadata.updated_at == old_v.metadata.updated_at
            &&& has_active(v, src) ==> w.entries[dst].metadata.lifecycle_state == (
            LifecycleState::Active { last_accessed: now }) && w.active.contains(ttl_bytes(now, dst))
            &&& has_trashed(v, src) ==> w.entries[dst].metadata.lifecycle_state
                == old_v.metadata.lifecycle_state && w.trash.contains(
                ttl_bytes(old_v.metadata.lifecycle_state->trashed_at, dst),
            )
        }),
{
}

/// An attachment name has one first position.
proof fn lemma_first_named_unique(atts: Seq<(Seq<char>, u64)>, n: Seq<char>, p: int, q: int)
    requires
        is_first_named(atts, n, p),
        is_first_named(atts, n, q),
    ensures
        p == q,
{
    if p < q {
        assert(atts[p].0 == n);
    }
    if q < p {
        assert(atts[q].0 == n);
    }
}

/// Renaming an attachment changes only its name, in place: the others keep
/// their positions and sizes. With no other attachment named `to` (or
/// when `to` is `from`), the result is the attachments with the first one
/// named `from` renamed; otherwise the one named `to` is dropped, so one
/// fewer remains.
pub proof fn lemma_rename_attachment_in_place(
    atts: Seq<(Seq<char>, u64)>,
    from: Seq<char>,
    to: Seq<char>,
)
    ensures
        (from == to || forall|i: int| 0 <= i < atts.len() ==> (#[trigger] atts[i]).0 != to)
            ==> forall|q: int|
            #[trigger] is_first_named(atts, from, q) ==> renamed_attachments(atts, from, to)
                == Some(atts.update(q, (to, atts[q].1))),
        renamed_attachments(atts, from, to) matches Some(r) ==> r.len() == if from != to
            && attachment_index(atts, to) is Some {
            atts.len() - 1
        } else {
            atts.len() as int
        },
{
    if from == to || forall|i: int| 0 <= i < atts.len() ==> (#[trigger] atts[i]).0 != to {
        if from != to {
            if attachment_index(atts, to) is Some {
                let p = choose|p: int| is_first_named(atts, to, p);
                assert(atts[p].0 == to);
            }
        }
        assert forall|q: int| #[trigger] is_first_named(atts, from, q) implies renamed_attachments(
            atts,
            from,
            to,
        ) == Some(atts.update(q, (to, atts[q].1))) by {
            let q2 = choose|i: int| is_first_named(atts, from, i);
            lemma_first_named_unique(atts, from, q, q2);
        }
    }
}

} // verus!
