//! Keys of the TTL index: a timestamp followed by a store key, encoded so
//! that byte order is time order.
use crate::types::bytes::{
    lemma_lex_differ, lemma_lex_end, lemma_lex_start, lemma_lex_step, prefix_to, suffix_from,
    be_encode, be_value, lemma_be_encode_len, lemma_be_roundtrip, lex_lt, pow256, push_be,
    read_be,
};
use crate::types::key::{spec_key_result, Key};
use crate::types::text::{lemma_str_of_bytes, utf8_to_str};
use crate::types::time::{TimeSpan, Timestamp, NANOS_PER_SEC};
use std::cmp::Ordering;
use vstd::prelude::*;
use vstd::string::StringSliceAdditionalSpecFns;
use vstd::utf8::{decode_utf8, encode_utf8, valid_utf8};

verus! {

/// An entry of a TTL index: when the countdown of `key` started.
#[derive(Debug, Clone, PartialEq, Eq)]
pub struct TtlKey {
    /// The base time of the TTL: last access for active keys, trash time
    /// for trashed keys.
    pub timestamp: Timestamp,
    pub key: Key,
}

/// The bytes of a TTL entry: seconds (8 bytes) and nanoseconds (4 bytes),
/// both big-endian, then the key's UTF-8 bytes.
pub open spec fn ttl_bytes(t: Timestamp, key: Seq<char>) -> Seq<u8> {
    be_encode(t.secs as nat, 8) + be_encode(t.nanos as nat, 4) + encode_utf8(key)
}

/// The raw seconds field of encoded bytes.
pub open spec fn raw_secs(b: Seq<u8>) -> nat {
    be_value(b.subrange(0, 8))
}

/// The raw nanoseconds field of encoded bytes.
pub open spec fn raw_nanos(b: Seq<u8>) -> nat {
    be_value(b.subrange(8, 12))
}

/// The duration since the epoch that encoded bytes hold, normalised as
/// `Duration::new` does (whole seconds in the nanoseconds field carried
/// over), or `None` if too short or if the carry overflows.
pub open spec fn ttl_duration(b: Seq<u8>) -> Option<TimeSpan> {
    if b.len() < 12 {
        None
    } else if raw_secs(b) + raw_nanos(b) / 1_000_000_000 > u64::MAX {
        None
    } else {
        Some(
            TimeSpan {
                secs: (raw_secs(b) + raw_nanos(b) / 1_000_000_000) as u64,
                nanos: (raw_nanos(b) % 1_000_000_000) as u32,
            },
        )
    }
}

/// The key bytes of an encoded entry.
pub open spec fn ttl_key_part(b: Seq<u8>) -> Seq<u8> {
    b.subrange(12, b.len() as int)
}

/// The entry that bytes decode to, if they decode to one.
pub open spec fn ttl_decode(b: Seq<u8>) -> Option<(Timestamp, Seq<char>)> {
    match ttl_duration(b) {
        None => None,
        Some(d) => if valid_utf8(ttl_key_part(b)) {
            match spec_key_result(decode_utf8(ttl_key_part(b))) {
                Ok(k) => Some((Timestamp { secs: d.secs, nanos: d.nanos }, k)),
                Err(_) => None,
            }
        } else {
            None
        },
    }
}

/// Bytes that `TtlKey::compare` accepts: long enough, a representable
/// duration, and UTF-8 key bytes.
pub open spec fn ttl_comparable(b: Seq<u8>) -> bool {
    ttl_duration(b) is Some && valid_utf8(ttl_key_part(b))
}

/// The order of two integers.
pub open spec fn int_order(a: int, b: int) -> Ordering {
    if a < b {
        Ordering::Less
    } else if a == b {
        Ordering::Equal
    } else {
        Ordering::Greater
    }
}

/// The lexicographic order of two byte strings.
pub open spec fn lex_order(a: Seq<u8>, b: Seq<u8>) -> Ordering {
    if lex_lt(a, b) {
        Ordering::Less
    } else if a == b {
        Ordering::Equal
    } else {
        Ordering::Greater
    }
}

/// Order of TTL entries: by time, then by key bytes.
pub open spec fn ttl_order(d1: int, k1: Seq<u8>, d2: int, k2: Seq<u8>) -> Ordering {
    if d1 != d2 {
        int_order(d1, d2)
    } else {
        lex_order(k1, k2)
    }
}

/// A span in nanoseconds.
pub open spec fn dur_nanos(d: TimeSpan) -> int {
    d.secs * 1_000_000_000 + d.nanos
}

/// Whether two byte strings are equal.
pub fn same_bytes(a: &[u8], b: &[u8]) -> (r: bool)
    ensures
        r == (a@ == b@),
{
    proof {
        crate::types::bytes::lemma_lex_irrefl(a@);
    }
    match compare_bytes(a, b) {
        Ordering::Equal => true,
        Ordering::Less => false,
        Ordering::Greater => false,
    }
}

/// Whether the time field of an encoded entry (at least 12 bytes) holds a
/// representable time.
fn duration_fits(data: &[u8]) -> (r: bool)
    requires
        data@.len() >= 12,
    ensures
        r == ttl_duration(data@) is Some,
{
    let secs = read_be(data, 0, 8);
    let nanos = read_be(data, 8, 4);
    let carry = nanos / (NANOS_PER_SEC as u64);
    secs <= u64::MAX - carry
}

/// The time of an encoded entry and the rest of its bytes. The entry holds
/// at least the 12 bytes of the time field, and a representable time.
pub fn extract_duration(data: &[u8]) -> (r: (TimeSpan, &[u8]))
    requires
        data@.len() >= 12,
        ttl_duration(data@) is Some,
    ensures
        ttl_duration(data@) == Some(r.0),
        r.1@ == ttl_key_part(data@),
{
    let secs = read_be(data, 0, 8);
    let nanos = read_be(data, 8, 4);
    let carry = nanos / (NANOS_PER_SEC as u64);
    let d = TimeSpan { secs: secs + carry, nanos: (nanos % (NANOS_PER_SEC as u64)) as u32 };
    let rest = vstd::slice::slice_subrange(data, 12, data.len());
    (d, rest)
}

/// The lexicographic order of two byte strings.
pub fn compare_bytes(a: &[u8], b: &[u8]) -> (r: Ordering)
    ensures
        r == lex_order(a@, b@),
{
    let la = a.len();
    let lb = b.len();
    let mut i: usize = 0;
    proof {
        lemma_lex_start(a@, b@);
    }
    while i < la && i < lb
        invariant
            la == a@.len(),
            lb == b@.len(),
            i <= la,
            i <= lb,
            prefix_to(a@, i) == prefix_to(b@, i),
            lex_lt(a@, b@) == lex_lt(suffix_from(a@, i), suffix_from(b@, i)),
            lex_lt(b@, a@) == lex_lt(suffix_from(b@, i), suffix_from(a@, i)),
        decreases la - i,
    {
        if a[i] != b[i] {
            proof {
                lemma_lex_differ(a@, b@, i);
            }
            if a[i] < b[i] {
                return Ordering::Less;
            } else {
                return Ordering::Greater;
            }
        }
        proof {
            lemma_lex_step(a@, b@, i);
        }
        i = i + 1;
    }
    proof {
        lemma_lex_end(a@, b@, i);
    }
    if la < lb {
        Ordering::Less
    } else if la == lb {
        Ordering::Equal
    } else {
        Ordering::Greater
    }
}

impl TtlKey {
    /// Well-formed: a well-formed timestamp and a valid key.
    pub open spec fn wf(&self) -> bool {
        self.timestamp.wf() && self.key.wf()
    }

    /// The encoded form of this entry.
    pub fn as_bytes(&self) -> (r: Vec<u8>)
        ensures
            r@ == ttl_bytes(self.timestamp, self.key@),
    {
        let mut out: Vec<u8> = Vec::new();
        push_be(&mut out, self.timestamp.secs, 8);
        push_be(&mut out, self.timestamp.nanos as u64, 4);
        let kb = self.key.as_str().as_bytes();
        let ghost pre = out@;
        let mut i: usize = 0;
        while i < kb.len()
            invariant
                kb@ == encode_utf8(self.key@),
                i <= kb@.len(),
                out@ == pre + kb@.subrange(0, i as int),
            decreases kb@.len() - i,
        {
            out.push(kb[i]);
            proof {
                assert(kb@.subrange(0, i + 1) =~= kb@.subrange(0, i as int).push(kb@[i as int]));
            }
            i = i + 1;
        }
        proof {
            assert(kb@.subrange(0, kb@.len() as int) =~= kb@);
            assert(out@ =~= ttl_bytes(self.timestamp, self.key@));
        }
        out
    }

    /// The entry that `data` encodes; `None` when it is too short, holds an
    /// unrepresentable time, or its key part is not a valid key.
    pub fn from_bytes(data: &[u8]) -> (r: Option<TtlKey>)
        ensures
            match (r, ttl_decode(data@)) {
                (Some(k), Some((t, s))) => k.timestamp == t && k.key@ == s && k.wf(),
                (None, None) => true,
                _ => false,
            },
    {
        if data.len() < 12 || !duration_fits(data) {
            return None;
        }
        let (d, rest) = extract_duration(data);
        let s = match utf8_to_str(rest) {
            Some(s) => s,
            None => return None,
        };
        proof { lemma_str_of_bytes(s, rest@); }
        match Key::try_from(s) {
            Ok(key) => Some(TtlKey { timestamp: Timestamp { secs: d.secs, nanos: d.nanos }, key }),
            Err(_) => None,
        }
    }

    /// Orders two encoded entries: by time, then by key bytes.
    pub fn compare(data1: &[u8], data2: &[u8]) -> (r: Ordering)
        requires
            ttl_comparable(data1@),
            ttl_comparable(data2@),
        ensures
            r == ttl_order(
                dur_nanos(ttl_duration(data1@)->0),
                ttl_key_part(data1@),
                dur_nanos(ttl_duration(data2@)->0),
                ttl_key_part(data2@),
            ),
    {
        let (d1, rest1) = extract_duration(data1);
        let (d2, rest2) = extract_duration(data2);
        if d1.secs < d2.secs || (d1.secs == d2.secs && d1.nanos < d2.nanos) {
            Ordering::Less
        } else if d1.secs == d2.secs && d1.nanos == d2.nanos {
            compare_bytes(rest1, rest2)
        } else {
            Ordering::Greater
        }
    }
}

/// Decoding an encoded well-formed entry gives it back.
pub proof fn lemma_ttl_roundtrip(t: Timestamp, key: Seq<char>)
    requires
        t.wf(),
        spec_key_result(key) == Ok::<Seq<char>, crate::types::key::KeyError>(key),
    ensures
        ttl_decode(ttl_bytes(t, key)) == Some((t, key)),
        ttl_comparable(ttl_bytes(t, key)),
        ttl_duration(ttl_bytes(t, key)) == Some(TimeSpan { secs: t.secs, nanos: t.nanos }),
        ttl_key_part(ttl_bytes(t, key)) == encode_utf8(key),
{
    let b = ttl_bytes(t, key);
    lemma_be_encode_len(t.secs as nat, 8);
    lemma_be_encode_len(t.nanos as nat, 4);
    lemma_be_roundtrip(t.secs as nat, 8);
    lemma_be_roundtrip(t.nanos as nat, 4);
    assert(pow256(8) == 18446744073709551616nat) by {
        reveal_with_fuel(pow256, 9);
    }
    assert(pow256(4) == 4294967296nat) by {
        reveal_with_fuel(pow256, 5);
    }
    assert(b.subrange(0, 8) =~= be_encode(t.secs as nat, 8));
    assert(b.subrange(8, 12) =~= be_encode(t.nanos as nat, 4));
    assert(ttl_key_part(b) =~= encode_utf8(key));
    vstd::utf8::encode_utf8_valid_utf8(key);
    vstd::utf8::encode_utf8_decode_utf8(key);
}

} // verus!

verus! {

/// The time field of an encoded entry.
pub open spec fn ttl_prefix(t: Timestamp) -> Seq<u8> {
    be_encode(t.secs as nat, 8) + be_encode(t.nanos as nat, 4)
}

/// The time field is twelve bytes denoting `secs * 2^32 + nanos`.
proof fn lemma_ttl_prefix(t: Timestamp)
    ensures
        ttl_prefix(t).len() == 12,
        be_value(ttl_prefix(t)) == t.secs * 4294967296 + t.nanos,
{
    lemma_be_encode_len(t.secs as nat, 8);
    lemma_be_encode_len(t.nanos as nat, 4);
    lemma_be_roundtrip(t.secs as nat, 8);
    lemma_be_roundtrip(t.nanos as nat, 4);
    assert(pow256(8) == 18446744073709551616nat) by {
        reveal_with_fuel(pow256, 9);
    }
    assert(pow256(4) == 4294967296nat) by {
        reveal_with_fuel(pow256, 5);
    }
    crate::types::bytes::lemma_be_concat(
        be_encode(t.secs as nat, 8),
        be_encode(t.nanos as nat, 4),
    );
}

/// Time fields compare as the times do, and are equal only for equal times.
pub proof fn lemma_ttl_prefix_relation(t1: Timestamp, t2: Timestamp)
    requires
        t1.wf(),
        t2.wf(),
    ensures
        lex_lt(ttl_prefix(t1), ttl_prefix(t2)) == (crate::types::time::ts_nanos(t1)
            < crate::types::time::ts_nanos(t2)),
        (ttl_prefix(t1) == ttl_prefix(t2)) == (t1 == t2),
        ttl_prefix(t1).len() == 12,
        ttl_prefix(t2).len() == 12,
{
    lemma_ttl_prefix(t1);
    lemma_ttl_prefix(t2);
    crate::types::bytes::lemma_lex_be(ttl_prefix(t1), ttl_prefix(t2));
    let s1 = t1.secs as int;
    let n1 = t1.nanos as int;
    let s2 = t2.secs as int;
    let n2 = t2.nanos as int;
    assert((s1 * 4294967296 + n1 < s2 * 4294967296 + n2) == (s1 * 1000000000 + n1 < s2
        * 1000000000 + n2)) by (nonlinear_arith)
        requires
            0 <= n1 < 1000000000,
            0 <= n2 < 1000000000,
            0 <= s1,
            0 <= s2,
    ;
    if ttl_prefix(t1) == ttl_prefix(t2) {
        assert(s1 == s2 && n1 == n2) by (nonlinear_arith)
            requires
                s1 * 4294967296 + n1 == s2 * 4294967296 + n2,
                0 <= n1 < 4294967296,
                0 <= n2 < 4294967296,
        ;
    }
}

/// The encoding of an entry is its time field followed by the key bytes.
proof fn lemma_ttl_bytes_split(t: Timestamp, k: Seq<char>)
    ensures
        ttl_bytes(t, k) == ttl_prefix(t) + encode_utf8(k),
{
}

/// Law: the byte order of encoded entries (the order in which redb keeps
/// them) is the order by time, then by key bytes.
pub proof fn lemma_ttl_bytes_order(t1: Timestamp, k1: Seq<char>, t2: Timestamp, k2: Seq<char>)
    requires
        t1.wf(),
        t2.wf(),
    ensures
        lex_order(ttl_bytes(t1, k1), ttl_bytes(t2, k2)) == ttl_order(
            crate::types::time::ts_nanos(t1),
            encode_utf8(k1),
            crate::types::time::ts_nanos(t2),
            encode_utf8(k2),
        ),
{
    lemma_ttl_prefix_relation(t1, t2);
    lemma_ttl_bytes_split(t1, k1);
    lemma_ttl_bytes_split(t2, k2);
    crate::types::bytes::lemma_lex_concat(
        ttl_prefix(t1),
        encode_utf8(k1),
        ttl_prefix(t2),
        encode_utf8(k2),
    );
}

/// An entry sorts below the bare time field of `c` exactly when its time is
/// before `c`.
pub proof fn lemma_ttl_below(t: Timestamp, k: Seq<char>, c: Timestamp)
    requires
        t.wf(),
        c.wf(),
    ensures
        lex_lt(ttl_bytes(t, k), ttl_prefix(c)) == (crate::types::time::ts_nanos(t)
            < crate::types::time::ts_nanos(c)),
{
    lemma_ttl_prefix_relation(t, c);
    lemma_ttl_bytes_split(t, k);
    crate::types::bytes::lemma_lex_prefix(ttl_prefix(t), encode_utf8(k), ttl_prefix(c));
}

} // verus!
