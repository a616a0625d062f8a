//! A TTL index: entries `(timestamp, key)` kept in time order, from which
//! the keys whose time-to-live has run out are read.
use crate::database::error::DatabaseError;
use crate::database::store::{
    read_ttl_all, read_ttl_below, rt_ttl, sorted_strict, ttl_insert, ttl_open, ttl_remove, wt_main,
    wt_meta, wt_origin, wt_ttl,
};
use crate::types::bytes::lex_lt;
pub use crate::types::key::keys_view;
use crate::types::key::{valid_key_chars, Key};
use crate::types::time::{span_nanos, ts_nanos, TimeSpan, Timestamp};
use crate::types::ttl_key::{
    lemma_ttl_below, lemma_ttl_roundtrip, ttl_bytes, ttl_decode, ttl_prefix, TtlKey,
};
use vstd::prelude::*;

verus! {

/// Every entry is the encoding of a well-formed timestamp and a valid key.
pub open spec fn ttl_wf(s: Set<Seq<u8>>) -> bool {
    forall|e: Seq<u8>| #[trigger] s.contains(e) ==> ttl_entry_wf(e)
}

/// The entry is the encoding of a well-formed timestamp and a valid key.
pub open spec fn ttl_entry_wf(e: Seq<u8>) -> bool {
    ttl_decode(e) matches Some((t, k)) && t.wf() && valid_key_chars(k) && e == ttl_bytes(t, k)
}

/// The key of an entry.
pub open spec fn entry_key(e: Seq<u8>) -> Seq<char> {
    (ttl_decode(e)->0).1
}

/// The timestamp of an entry.
pub open spec fn entry_time(e: Seq<u8>) -> Timestamp {
    (ttl_decode(e)->0).0
}

/// The entry's time-to-live `ttl` has run out at `now`.
pub open spec fn entry_expired(e: Seq<u8>, now: Timestamp, ttl: TimeSpan) -> bool {
    ts_nanos(entry_time(e)) + span_nanos(ttl) <= ts_nanos(now)
}

/// The keys of entries, in order.
pub open spec fn entry_keys(es: Seq<Seq<u8>>) -> Seq<Seq<char>> {
    es.map_values(|e: Seq<u8>| entry_key(e))
}

/// `keys` are the keys of the entries of `s` in byte order.
pub open spec fn keys_in_order(keys: Seq<Key>, s: Set<Seq<u8>>) -> bool {
    exists|es: Seq<Seq<u8>>|
        #![trigger es.to_set()]
        sorted_strict(es) && es.to_set() == s && keys_view(keys) == entry_keys(es)
}

/// A TTL index stored in the redb table `name`.
#[derive(Debug, Clone, Copy)]
pub struct TtlTable {
    pub name: &'static str,
}

impl TtlTable {
    /// The index in table `name`.
    pub fn new(name: &'static str) -> (r: Self)
        requires
            name@.len() > 0,
        ensures
            r.name == name,
    {
        TtlTable { name }
    }

    /// Creates the table if it does not exist; its entries stay as they were.
    pub fn init(&self, txn: &mut redb::WriteTransaction) -> (r: Result<(), DatabaseError>)
        requires
            self.name@.len() > 0,
        ensures
            wt_origin(*final(txn)) == wt_origin(*old(txn)),
            wt_main(*final(txn)) == wt_main(*old(txn)),
            wt_meta(*final(txn)) == wt_meta(*old(txn)),
            forall|n: Seq<char>| #[trigger] wt_ttl(*final(txn), n) == wt_ttl(*old(txn), n),
            r matches Err(e) ==> e is Redb,
    {
        match ttl_open(txn, self.name) {
            Ok(()) => Ok(()),
            Err(e) => Err(DatabaseError::Redb(e)),
        }
    }

    /// Adds the entry `ttl_key`.
    pub fn insert(&self, txn: &mut redb::WriteTransaction, ttl_key: &TtlKey) -> (r: Result<
        (),
        DatabaseError,
    >)
        requires
            self.name@.len() > 0,
        ensures
            wt_origin(*final(txn)) == wt_origin(*old(txn)),
            r is Ok ==> wt_ttl(*final(txn), self.name@) == wt_ttl(*old(txn), self.name@).insert(
                ttl_bytes(ttl_key.timestamp, ttl_key.key@),
            ),
            r is Ok ==> forall|n: Seq<char>|
                n != self.name@ ==> #[trigger] wt_ttl(*final(txn), n) == wt_ttl(*old(txn), n),
            r is Ok ==> wt_main(*final(txn)) == wt_main(*old(txn)),
            r is Ok ==> wt_meta(*final(txn)) == wt_meta(*old(txn)),
            r matches Err(e) ==> e is Redb,
    {
        let bytes = ttl_key.as_bytes();
        match ttl_insert(txn, self.name, bytes.as_slice()) {
            Ok(()) => Ok(()),
            Err(e) => Err(DatabaseError::Redb(e)),
        }
    }

    /// Removes the entry `ttl_key`, telling whether it was there.
    pub fn remove(&self, txn: &mut redb::WriteTransaction, ttl_key: &TtlKey) -> (r: Result<
        bool,
        DatabaseError,
    >)
        requires
            self.name@.len() > 0,
        ensures
            wt_origin(*final(txn)) == wt_origin(*old(txn)),
            r matches Ok(b) ==> b == wt_ttl(*old(txn), self.name@).contains(
                ttl_bytes(ttl_key.timestamp, ttl_key.key@),
            ),
            r is Ok ==> wt_ttl(*final(txn), self.name@) == wt_ttl(*old(txn), self.name@).remove(
                ttl_bytes(ttl_key.timestamp, ttl_key.key@),
            ),
            r is Ok ==> forall|n: Seq<char>|
                n != self.name@ ==> #[trigger] wt_ttl(*final(txn), n) == wt_ttl(*old(txn), n),
            r is Ok ==> wt_main(*final(txn)) == wt_main(*old(txn)),
            r is Ok ==> wt_meta(*final(txn)) == wt_meta(*old(txn)),
            r matches Err(e) ==> e is Redb,
    {
        let bytes = ttl_key.as_bytes();
        match ttl_remove(txn, self.name, bytes.as_slice()) {
            Ok(b) => Ok(b),
            Err(e) => Err(DatabaseError::Redb(e)),
        }
    }

    /// The keys of entries `es`, in order.
    fn decode_keys(es: Vec<Vec<u8>>) -> (r: Result<Vec<Key>, DatabaseError>)
        ensures
            r matches Ok(keys) ==> keys_view(keys@) == entry_keys(es.deep_view()),
            r matches Ok(keys) ==> forall|i: int| 0 <= i < keys@.len() ==> (#[trigger] keys@[i]).wf(),
            (forall|i: int| 0 <= i < es.deep_view().len() ==> ttl_entry_wf(
                #[trigger] es.deep_view()[i],
            )) ==> r is Ok,
            r matches Err(e) ==> e is Corrupted,
    {
        let mut keys: Vec<Key> = Vec::new();
        let mut i: usize = 0;
        while i < es.len()
            invariant
                i <= es@.len(),
                keys_view(keys@) == entry_keys(es.deep_view().subrange(0, i as int)),
                forall|j: int| 0 <= j < keys@.len() ==> (#[trigger] keys@[j]).wf(),
            decreases es@.len() - i,
        {
            let ghost pre = keys@;
            match TtlKey::from_bytes(es[i].as_slice()) {
                Some(tk) => {
                    keys.push(tk.key);
                    proof {
                        assert(es.deep_view()[i as int] == es@[i as int]@);
                        assert(keys_view(keys@) =~= keys_view(pre).push(
                            entry_key(es.deep_view()[i as int]),
                        ));
                        assert(es.deep_view().subrange(0, i + 1) =~= es.deep_view().subrange(
                            0,
                            i as int,
                        ).push(es.deep_view()[i as int]));
                        assert(entry_keys(es.deep_view().subrange(0, i + 1)) =~= entry_keys(
                            es.deep_view().subrange(0, i as int),
                        ).push(entry_key(es.deep_view()[i as int])));
                    }
                },
                None => {
                    proof {
                        assert(es.deep_view()[i as int] == es@[i as int]@);
                    }
                    return Err(DatabaseError::Corrupted);
                },
            }
            i = i + 1;
        }
        proof {
            assert(es.deep_view().subrange(0, i as int) =~= es.deep_view());
        }
        Ok(keys)
    }

    /// The keys whose entries have expired at `now` with time-to-live `ttl`
    /// (`timestamp + ttl <= now`), oldest first.
    pub fn expired_keys(&self, txn: &redb::ReadTransaction, now: Timestamp, ttl: TimeSpan) -> (r:
        Result<Vec<Key>, DatabaseError>)
        requires
            self.name@.len() > 0,
            now.wf(),
            ttl.wf(),
        ensures
            ttl_wf(rt_ttl(*txn, self.name@)) ==> (r matches Ok(keys) ==> keys_in_order(
                keys@,
                rt_ttl(*txn, self.name@).filter(|e: Seq<u8>| entry_expired(e, now, ttl)),
            )),
            ttl_wf(rt_ttl(*txn, self.name@)) ==> !(r matches Err(DatabaseError::Corrupted)),
            r matches Err(e) ==> e is Redb || e is Corrupted,
    {
        let ghost s = rt_ttl(*txn, self.name@);
        let ghost expired = s.filter(|e: Seq<u8>| entry_expired(e, now, ttl));
        let cutoff = match now.checked_sub(&ttl) {
            Some(c) => c,
            None => {
                proof {
                    if ttl_wf(s) {
                        assert(expired =~= Set::<Seq<u8>>::empty()) by {
                            assert forall|e: Seq<u8>| s.contains(e) implies !entry_expired(
                                e,
                                now,
                                ttl,
                            ) by {
                                assert(ttl_entry_wf(e));
                            }
                        }
                    }
                    assert(Seq::<Seq<u8>>::empty().to_set() =~= expired);
                    assert(sorted_strict(Seq::<Seq<u8>>::empty()));
                    assert(keys_view(Seq::<Key>::empty()) =~= entry_keys(Seq::<Seq<u8>>::empty()));
                }
                return Ok(Vec::new());
            },
        };
        let one_nano = TimeSpan { secs: 0, nanos: 1 };
        let es = match cutoff.checked_add(&one_nano) {
            Some(bound_time) => {
                let mut bound: Vec<u8> = Vec::new();
                crate::types::bytes::push_be(&mut bound, bound_time.secs, 8);
                crate::types::bytes::push_be(&mut bound, bound_time.nanos as u64, 4);
                match read_ttl_below(txn, self.name, bound.as_slice()) {
                    Ok(es) => {
                        proof {
                            assert(bound@ =~= ttl_prefix(bound_time));
                            if ttl_wf(s) {
                                assert(s.filter(|e: Seq<u8>| lex_lt(e, bound@)) =~= expired) by {
                                    assert forall|e: Seq<u8>| s.contains(e) implies lex_lt(e, bound@)
                                        == entry_expired(e, now, ttl) by {
                                        assert(ttl_entry_wf(e));
                                        lemma_ttl_below(entry_time(e), entry_key(e), bound_time);
                                    }
                                }
                            }
                        }
                        es
                    },
                    Err(e) => return Err(DatabaseError::Redb(e)),
                }
            },
            None => {
                match read_ttl_all(txn, self.name) {
                    Ok(es) => {
                        proof {
                            if ttl_wf(s) {
                                assert(s =~= expired) by {
                                    assert forall|e: Seq<u8>| s.contains(e) implies entry_expired(
                                        e,
                                        now,
                                        ttl,
                                    ) by {
                                        assert(ttl_entry_wf(e));
                                    }
                                }
                            }
                        }
                        es
                    },
                    Err(e) => return Err(DatabaseError::Redb(e)),
                }
            },
        };
        let ghost esv = es.deep_view();
        proof {
            if ttl_wf(s) {
                assert forall|i: int| 0 <= i < esv.len() implies ttl_entry_wf(#[trigger] esv[i]) by {
                    assert(esv.to_set().contains(esv[i]));
                }
            }
        }
        let keys = Self::decode_keys(es);
        proof {
            if ttl_wf(s) && keys is Ok {
                assert(sorted_strict(esv) && esv.to_set() == expired);
            }
        }
        keys
    }

    /// All keys of the index, oldest entry first.
    pub fn all_keys(&self, txn: &redb::ReadTransaction) -> (r: Result<Vec<Key>, DatabaseError>)
        requires
            self.name@.len() > 0,
        ensures
            ttl_wf(rt_ttl(*txn, self.name@)) ==> (r matches Ok(keys) ==> keys_in_order(
                keys@,
                rt_ttl(*txn, self.name@),
            )),
            ttl_wf(rt_ttl(*txn, self.name@)) ==> !(r matches Err(DatabaseError::Corrupted)),
            r matches Err(e) ==> e is Redb || e is Corrupted,
    {
        let ghost s = rt_ttl(*txn, self.name@);
        let es = match read_ttl_all(txn, self.name) {
            Ok(es) => es,
            Err(e) => return Err(DatabaseError::Redb(e)),
        };
        let ghost esv = es.deep_view();
        proof {
            if ttl_wf(s) {
                assert forall|i: int| 0 <= i < esv.len() implies ttl_entry_wf(#[trigger] esv[i]) by {
                    assert(esv.to_set().contains(esv[i]));
                }
            }
        }
        Self::decode_keys(es)
    }
}

} // verus!
