//! Garbage collection: which keys have outlived their time-to-live, what
//! the store holds after a collection, and the record of when maintenance
//! last ran (a JSON text in the metadata table).
use crate::database::db::{consistent, has_active, state_entry, trashed, view_wf, DbView};
use crate::database::store::sorted_strict;
use crate::database::ttl_table::{entry_expired, entry_key, entry_keys, entry_time, ttl_entry_wf};
use crate::types::config::SavedConfig;
use crate::types::text::{decimal, digit_char, push_decimal, starts_with, str_eq};
use crate::types::time::{span_nanos, ts_nanos, TimeSpan, Timestamp};
use crate::types::value::{state_time, LifecycleState, ValueView};
use vstd::prelude::*;

verus! {

/// Name of the maintenance record in the metadata table.
pub const METADATA_KEY_MAINTENANCE: &'static str = "maintenance";

/// When maintenance last ran.
#[derive(Debug, Clone, Copy, PartialEq, Eq)]
pub struct MaintenanceMetadata {
    pub last_run_at: Option<Timestamp>,
}

/// The state is the one whose index is meant: trash (`in_trash`) or active.
pub open spec fn in_state(s: LifecycleState, in_trash: bool) -> bool {
    if in_trash {
        s is Trash
    } else {
        s is Active
    }
}

/// The index of active keys, or (`in_trash`) of trashed keys.
pub open spec fn index_of(v: DbView, in_trash: bool) -> Set<Seq<u8>> {
    if in_trash {
        v.trash
    } else {
        v.active
    }
}

/// The value is in the state meant and its time there is at least `ttl`
/// at `now`.
pub open spec fn due(v: ValueView, now: Timestamp, ttl: TimeSpan, in_trash: bool) -> bool {
    &&& in_state(v.metadata.lifecycle_state, in_trash)
    &&& ts_nanos(state_time(v.metadata.lifecycle_state)) + span_nanos(ttl) <= ts_nanos(now)
}

/// An active value unused for at least `ttl` at `now`.
pub open spec fn trash_due(v: ValueView, now: Timestamp, ttl: TimeSpan) -> bool {
    due(v, now, ttl, false)
}

/// A trashed value in the trash for at least `ttl` at `now`.
pub open spec fn purge_due(v: ValueView, now: Timestamp, ttl: TimeSpan) -> bool {
    due(v, now, ttl, true)
}

/// The values after a collection at `now`: keys due for purging are gone,
/// keys due for the trash are trashed at `now`, the rest is unchanged.
pub open spec fn gc_entries(
    e: Map<Seq<char>, ValueView>,
    now: Timestamp,
    s: SavedConfig,
) -> Map<Seq<char>, ValueView> {
    Map::new(
        |k: Seq<char>| e.contains_key(k) && !purge_due(e[k], now, s.purge_ttl),
        |k: Seq<char>|
            if trash_due(e[k], now, s.trash_ttl) {
                trashed(e[k], now)
            } else {
                e[k]
            },
    )
}

/// The text of a maintenance record, as serde_json writes it.
pub open spec fn maintenance_text(m: MaintenanceMetadata) -> Seq<char> {
    match m.last_run_at {
        None => "{\"last_run_at\":null}"@,
        Some(t) => "{\"last_run_at\":{\"secs_since_epoch\":"@ + decimal(t.secs as nat)
            + ",\"nanos_since_epoch\":"@ + decimal(t.nanos as nat) + "}}"@,
    }
}

/// `after` is `before` after a collection at `now`, recorded in the metadata.
pub open spec fn gc_done(before: DbView, after: DbView, now: Timestamp, s: SavedConfig) -> bool {
    &&& after.entries == gc_entries(before.entries, now, s)
    &&& after.meta == before.meta.insert(
        METADATA_KEY_MAINTENANCE@,
        maintenance_text(MaintenanceMetadata { last_run_at: Some(now) }),
    )
}

/// The keys of the expired entries of an index are exactly the keys due,
/// each once.
pub proof fn lemma_due_keys(
    v: DbView,
    es: Seq<Seq<u8>>,
    ks: Seq<Seq<char>>,
    now: Timestamp,
    ttl: TimeSpan,
    in_trash: bool,
)
    requires
        consistent(v),
        view_wf(v),
        sorted_strict(es),
        es.to_set() == index_of(v, in_trash).filter(|e: Seq<u8>| entry_expired(e, now, ttl)),
        ks == entry_keys(es),
    ensures
        forall|i: int|
            0 <= i < ks.len() ==> v.entries.contains_key(#[trigger] ks[i]) && due(
                v.entries[ks[i]],
                now,
                ttl,
                in_trash,
            ),
        forall|k: Seq<char>|
            v.entries.contains_key(k) && due(v.entries[k], now, ttl, in_trash) ==> #[trigger] ks.contains(k),
        ks.no_duplicates(),
{
    let idx = index_of(v, in_trash);
    assert forall|i: int| 0 <= i < ks.len() implies v.entries.contains_key(#[trigger] ks[i]) && due(
        v.entries[ks[i]],
        now,
        ttl,
        in_trash,
    ) by {
        assert(es.to_set().contains(es[i]));
        assert(idx.contains(es[i]));
    }
    assert forall|k: Seq<char>| v.entries.contains_key(k) && due(v.entries[k], now, ttl, in_trash) implies #[trigger] ks.contains(k) by {
        let s = v.entries[k].metadata.lifecycle_state;
        let e = state_entry(k, s);
        crate::database::db::lemma_state_entry(k, s);
        assert(idx.contains(e));
        assert(es.to_set().contains(e));
        let j = choose|j: int| 0 <= j < es.len() && es[j] == e;
        assert(ks[j] == k);
    }
    assert forall|i: int, j: int| 0 <= i < ks.len() && 0 <= j < ks.len() && i != j implies ks[i] != ks[j] by {
        assert(es.to_set().contains(es[i]));
        assert(es.to_set().contains(es[j]));
        assert(idx.contains(es[i]));
        assert(idx.contains(es[j]));
        assert(ttl_entry_wf(es[i]));
        assert(ttl_entry_wf(es[j]));
        if ks[i] == ks[j] {
            assert(entry_time(es[i]) == entry_time(es[j]));
            crate::types::bytes::lemma_lex_irrefl(es[i]);
            if i < j {
                assert(crate::types::bytes::lex_lt(es[i], es[j]));
            } else {
                assert(crate::types::bytes::lex_lt(es[j], es[i]));
            }
        }
    }
}

impl MaintenanceMetadata {
    /// The record's JSON text.
    pub fn to_json(&self) -> (r: String)
        ensures
            r@ == maintenance_text(*self),
    {
        match self.last_run_at {
            None => String::from_str("{\"last_run_at\":null}"),
            Some(t) => {
                let mut s = String::from_str("{\"last_run_at\":{\"secs_since_epoch\":");
                push_decimal(&mut s, t.secs);
                s.append(",\"nanos_since_epoch\":");
                push_decimal(&mut s, t.nanos as u64);
                s.append("}}");
                s
            },
        }
    }
}

/// The character is a decimal digit.
pub open spec fn is_digit(c: char) -> bool {
    48 <= (c as int) <= 57
}

/// The value of a decimal digit.
pub open spec fn digit_value(c: char) -> nat {
    ((c as int) - 48) as nat
}

/// The number that a run of decimal digits stands for.
pub open spec fn digits_value(ds: Seq<char>) -> nat
    decreases ds.len(),
{
    if ds.len() == 0 {
        0
    } else {
        digits_value(ds.drop_last()) * 10 + digit_value(ds.last())
    }
}

/// Where the run of digits that starts at `i` ends.
pub open spec fn digit_run_end(s: Seq<char>, i: int) -> int
    decreases s.len() - i,
{
    if i < 0 || i >= s.len() || !is_digit(s[i]) {
        i
    } else {
        digit_run_end(s, i + 1)
    }
}

/// The decimal digits of `n` are digits, and stand for `n`.
pub proof fn lemma_decimal(n: nat)
    ensures
        decimal(n).len() >= 1,
        forall|i: int| 0 <= i < decimal(n).len() ==> is_digit(#[trigger] decimal(n)[i]),
        digits_value(decimal(n)) == n,
    decreases n,
{
    let d = n % 10;
    assert(digit_value(digit_char(d)) == d);
    if n >= 10 {
        lemma_decimal(n / 10);
        assert(decimal(n).drop_last() =~= decimal(n / 10));
        assert(decimal(n).last() == digit_char(d));
        assert((n / 10) * 10 + n % 10 == n) by (nonlinear_arith);
        assert(digits_value(decimal(n)) == digits_value(decimal(n / 10)) * 10 + d);
    } else {
        assert(decimal(n).drop_last() =~= Seq::<char>::empty());
        assert(decimal(n).last() == digit_char(d));
        assert(d == n);
        assert(digits_value(decimal(n)) == digits_value(Seq::<char>::empty()) * 10 + d);
    }
}

/// A run of digits followed by a non-digit ends there.
pub proof fn lemma_digit_run(s: Seq<char>, i: int, len: int)
    requires
        0 <= i,
        0 <= len,
        i + len <= s.len(),
        forall|j: int| i <= j < i + len ==> is_digit(#[trigger] s[j]),
        i + len == s.len() || !is_digit(s[i + len]),
    ensures
        digit_run_end(s, i) == i + len,
    decreases len,
{
    if len > 0 {
        lemma_digit_run(s, i + 1, len - 1);
    }
}

/// Reads the run of decimal digits of `s` that starts at `start`: its value
/// and where it ends. `None` when the run is empty or its value exceeds
/// `u64::MAX`.
pub fn read_number(s: &str, start: usize) -> (r: Option<(u64, usize)>)
    requires
        start <= s@.len(),
    ensures
        r is Some <==> digit_run_end(s@, start as int) > start && digits_value(
            s@.subrange(start as int, digit_run_end(s@, start as int)),
        ) <= u64::MAX,
        r matches Some((v, e)) ==> e == digit_run_end(s@, start as int) && v == digits_value(
            s@.subrange(start as int, e as int),
        ),
{
    let n = s.unicode_len();
    let ghost end = digit_run_end(s@, start as int);
    let mut i: usize = start;
    let mut acc: u64 = 0;
    let mut fits: bool = true;
    proof {
        assert(s@.subrange(start as int, start as int) =~= Seq::<char>::empty());
    }
    while i < n && is_digit_char(s.get_char(i))
        invariant
            n == s@.len(),
            start <= i <= n,
            digit_run_end(s@, i as int) == end,
            forall|j: int| start <= j < i ==> is_digit(#[trigger] s@[j]),
            fits ==> acc == digits_value(s@.subrange(start as int, i as int)),
            !fits ==> digits_value(s@.subrange(start as int, i as int)) > u64::MAX,
        decreases n - i,
    {
        let c = s.get_char(i);
        let d: u64 = (c as u32 - 48) as u64;
        let ghost pre = s@.subrange(start as int, i as int);
        proof {
            assert(s@.subrange(start as int, i + 1).drop_last() =~= pre);
        }
        if fits {
            if acc <= (u64::MAX - d) / 10 {
                acc = acc * 10 + d;
            } else {
                fits = false;
            }
        }
        i = i + 1;
    }
    proof {
        assert(digit_run_end(s@, i as int) == i as int);
    }
    if i == start || !fits {
        None
    } else {
        Some((acc, i))
    }
}

/// The character is a decimal digit.
fn is_digit_char(c: char) -> (r: bool)
    ensures
        r == is_digit(c),
{
    '0' <= c && c <= '9'
}

impl MaintenanceMetadata {
    /// The recorded time is well-formed.
    pub open spec fn wf(&self) -> bool {
        self.last_run_at matches Some(t) ==> t.wf()
    }

    /// The record that a JSON text holds, JSON whitespace aside: once the
    /// whitespace is left out, the text must be the compact form that
    /// [`MaintenanceMetadata::to_json`] writes (numbers without leading zeros,
    /// fields in that order); other text gives `None`. The record's only
    /// strings are its field names, which hold no whitespace. Whitespace
    /// inside a number or a name, which JSON refuses, is left out as well.
    /// A record with its fields in another order or with more fields (JSON
    /// that this library never writes) gives `None`: maintenance then
    /// counts as due.
    pub fn from_json(text: &str) -> (r: Option<MaintenanceMetadata>)
        ensures
            r matches Some(m) ==> m.wf() && maintenance_text(m) == json_compact(text@),
            (exists|m: MaintenanceMetadata| m.wf() && maintenance_text(m) == json_compact(text@))
                ==> r is Some,
    {
        let c = compact_json(text);
        Self::from_compact(c.as_str())
    }

    /// The record that a compact JSON text holds.
    fn from_compact(text: &str) -> (r: Option<MaintenanceMetadata>)
        ensures
            r matches Some(m) ==> m.wf() && maintenance_text(m) == text@,
            (exists|m: MaintenanceMetadata| m.wf() && maintenance_text(m) == text@) ==> r is Some,
    {
        if str_eq(text, "{\"last_run_at\":null}") {
            return Some(MaintenanceMetadata { last_run_at: None });
        }
        let head = "{\"last_run_at\":{\"secs_since_epoch\":";
        let mid = ",\"nanos_since_epoch\":";
        proof {
            reveal_strlit("{\"last_run_at\":{\"secs_since_epoch\":");
            reveal_strlit(",\"nanos_since_epoch\":");
            reveal_strlit("}}");
            reveal_strlit("{\"last_run_at\":null}");
        }
        let ghost wanted = exists|m: MaintenanceMetadata| m.wf() && maintenance_text(m) == text@;
        let ghost m0 = choose|m: MaintenanceMetadata| m.wf() && maintenance_text(m) == text@;
        proof {
            if wanted {
                if m0.last_run_at is None {
                    assert(false);
                }
                let t0 = m0.last_run_at->0;
                let ds = decimal(t0.secs as nat);
                let dn = decimal(t0.nanos as nat);
                assert(text@ == head@ + ds + mid@ + dn + "}}"@);
                assert(text@.subrange(0, head@.len() as int) =~= head@);
            }
        }
        if !starts_with(text, head) {
            return None;
        }
        let i = head.unicode_len();
        proof {
            if wanted {
                let t0 = m0.last_run_at->0;
                lemma_decimal(t0.secs as nat);
                lemma_decimal(t0.nanos as nat);
                let ds = decimal(t0.secs as nat);
                assert(text@.subrange(i as int, i + ds.len()) =~= ds);
                assert(text@[i + ds.len()] == ',');
                lemma_digit_run(text@, i as int, ds.len() as int);
            }
        }
        let (secs, j) = match read_number(text, i) {
            Some(p) => p,
            None => return None,
        };
        let n = text.unicode_len();
        let mid_len = mid.unicode_len();
        if n < mid_len || j > n - mid_len {
            return None;
        }
        let k = j + mid_len;
        proof {
            if wanted {
                let t0 = m0.last_run_at->0;
                let ds = decimal(t0.secs as nat);
                let dn = decimal(t0.nanos as nat);
                assert(text@.subrange(k as int, k + dn.len()) =~= dn);
                assert(text@[k + dn.len()] == '}');
                lemma_digit_run(text@, k as int, dn.len() as int);
            }
        }
        let (nanos, _) = match read_number(text, k) {
            Some(p) => p,
            None => return None,
        };
        if nanos >= 1_000_000_000 {
            return None;
        }
        let m = MaintenanceMetadata {
            last_run_at: Some(Timestamp { secs, nanos: nanos as u32 }),
        };
        let rendered = m.to_json();
        if str_eq(rendered.as_str(), text) {
            Some(m)
        } else {
            None
        }
    }
}

/// Different records have different texts.
pub proof fn lemma_maintenance_text_injective(m1: MaintenanceMetadata, m2: MaintenanceMetadata)
    requires
        maintenance_text(m1) == maintenance_text(m2),
    ensures
        m1 == m2,
{
    reveal_strlit("{\"last_run_at\":{\"secs_since_epoch\":");
    reveal_strlit(",\"nanos_since_epoch\":");
    reveal_strlit("}}");
    reveal_strlit("{\"last_run_at\":null}");
    let head = "{\"last_run_at\":{\"secs_since_epoch\":"@;
    let mid = ",\"nanos_since_epoch\":"@;
    let s = maintenance_text(m1);
    match (m1.last_run_at, m2.last_run_at) {
        (None, None) => {},
        (None, Some(t)) => {
            assert(maintenance_text(m1)[15] != maintenance_text(m2)[15]);
        },
        (Some(t), None) => {
            assert(maintenance_text(m1)[15] != maintenance_text(m2)[15]);
        },
        (Some(a), Some(b)) => {
            lemma_decimal(a.secs as nat);
            lemma_decimal(b.secs as nat);
            lemma_decimal(a.nanos as nat);
            lemma_decimal(b.nanos as nat);
            let da = decimal(a.secs as nat);
            let db = decimal(b.secs as nat);
            let na = decimal(a.nanos as nat);
            let nb = decimal(b.nanos as nat);
            let h = head.len() as int;
            assert(s == head + da + mid + na + "}}"@);
            assert(s == head + db + mid + nb + "}}"@);
            assert(s.subrange(h, h + da.len()) =~= da);
            assert(s.subrange(h, h + db.len()) =~= db);
            assert(s[h + da.len()] == ',');
            assert(s[h + db.len()] == ',');
            lemma_digit_run(s, h, da.len() as int);
            lemma_digit_run(s, h, db.len() as int);
            assert(da == db);
            let k = h + da.len() + mid.len();
            assert(s.subrange(k, k + na.len()) =~= na);
            assert(s.subrange(k, k + nb.len()) =~= nb);
            assert(s[k + na.len()] == '}');
            assert(s[k + nb.len()] == '}');
            lemma_digit_run(s, k, na.len() as int);
            lemma_digit_run(s, k, nb.len() as int);
            assert(na == nb);
        },
    }
}

/// The time of the record that a text holds, if it holds one.
pub open spec fn record_in(text: Seq<char>) -> Option<Timestamp> {
    if exists|m: MaintenanceMetadata| m.wf() && maintenance_text(m) == json_compact(text) {
        (choose|m: MaintenanceMetadata| m.wf() && maintenance_text(m) == json_compact(
            text,
        )).last_run_at
    } else {
        None
    }
}

/// A JSON whitespace character.
pub open spec fn is_json_space(c: char) -> bool {
    c == ' ' || c == '\t' || c == '\n' || c == '\r'
}

/// A text with its JSON whitespace left out.
pub open spec fn json_compact(s: Seq<char>) -> Seq<char> {
    s.filter(|c: char| !is_json_space(c))
}

/// `text` with its JSON whitespace left out.
fn compact_json(text: &str) -> (r: String)
    ensures
        r@ == json_compact(text@),
{
    let n = text.unicode_len();
    let mut out = String::new();
    let mut i: usize = 0;
    while i < n
        invariant
            n == text@.len(),
            i <= n,
            out@ == json_compact(text@.subrange(0, i as int)),
        decreases n - i,
    {
        let c = text.get_char(i);
        let ghost pre = out@;
        proof {
            reveal(Seq::filter);
            let sub1 = text@.subrange(0, i + 1);
            assert(sub1.drop_last() =~= text@.subrange(0, i as int));
            assert(sub1.last() == c);
            assert(json_compact(sub1) == if !is_json_space(c) {
                json_compact(sub1.drop_last()).push(c)
            } else {
                json_compact(sub1.drop_last())
            });
        }
        if !(c == ' ' || c == '\t' || c == '\n' || c == '\r') {
            let piece = text.substring_char(i, i + 1);
            out.append(piece);
            proof {
                assert(piece@ =~= seq![c]);
                assert(out@ =~= pre.push(c));
            }
        }
        i = i + 1;
    }
    proof {
        assert(text@.subrange(0, n as int) =~= text@);
    }
    out
}

/// A text without JSON whitespace is its own compact form.
proof fn lemma_compact_spaceless(s: Seq<char>)
    requires
        forall|i: int| 0 <= i < s.len() ==> !is_json_space(#[trigger] s[i]),
    ensures
        json_compact(s) == s,
    decreases s.len(),
{
    reveal(Seq::filter);
    if s.len() > 0 {
        let d = s.drop_last();
        assert forall|i: int| 0 <= i < d.len() implies !is_json_space(#[trigger] d[i]) by {
            assert(d[i] == s[i]);
        }
        lemma_compact_spaceless(d);
        assert(!is_json_space(s[s.len() - 1]));
        assert(json_compact(s) == json_compact(d).push(s.last()));
        assert(d.push(s.last()) =~= s);
    }
}

/// The text of a record holds no JSON whitespace.
proof fn lemma_maintenance_text_compact(m: MaintenanceMetadata)
    ensures
        json_compact(maintenance_text(m)) == maintenance_text(m),
{
    reveal_strlit("{\"last_run_at\":{\"secs_since_epoch\":");
    reveal_strlit(",\"nanos_since_epoch\":");
    reveal_strlit("}}");
    reveal_strlit("{\"last_run_at\":null}");
    let s = maintenance_text(m);
    match m.last_run_at {
        None => {},
        Some(t) => {
            lemma_decimal(t.secs as nat);
            lemma_decimal(t.nanos as nat);
        },
    }
    assert forall|i: int| 0 <= i < s.len() implies !is_json_space(#[trigger] s[i]) by {
        match m.last_run_at {
            None => {},
            Some(t) => {
                let a = "{\"last_run_at\":{\"secs_since_epoch\":"@;
                let ds = decimal(t.secs as nat);
                let b = ",\"nanos_since_epoch\":"@;
                let dn = decimal(t.nanos as nat);
                let e = "}}"@;
                if i < a.len() {
                } else if i < a.len() + ds.len() {
                    assert(s[i] == ds[i - a.len()]);
                    assert(is_digit(ds[i - a.len()]));
                } else if i < a.len() + ds.len() + b.len() {
                    assert(s[i] == b[i - a.len() - ds.len()]);
                } else if i < a.len() + ds.len() + b.len() + dn.len() {
                    assert(s[i] == dn[i - a.len() - ds.len() - b.len()]);
                    assert(is_digit(dn[i - a.len() - ds.len() - b.len()]));
                } else {
                    assert(s[i] == e[i - a.len() - ds.len() - b.len() - dn.len()]);
                }
            },
        }
    }
    lemma_compact_spaceless(s);
}

/// The time maintenance last ran, as the metadata records it.
pub open spec fn recorded_run(meta: Map<Seq<char>, Seq<char>>) -> Option<Timestamp> {
    if meta.contains_key(METADATA_KEY_MAINTENANCE@) {
        record_in(meta[METADATA_KEY_MAINTENANCE@])
    } else {
        None
    }
}

/// Maintenance is due at `now`: it never ran, its time lies after `now`, or
/// at least `interval` has passed since.
pub open spec fn maintenance_due(last: Option<Timestamp>, now: Timestamp, interval: TimeSpan) -> bool {
    match last {
        None => true,
        Some(t) => ts_nanos(now) < ts_nanos(t) || ts_nanos(now) - ts_nanos(t) >= span_nanos(
            interval,
        ),
    }
}

/// Whether maintenance is due at `now`, given the stored record text.
pub fn maintenance_due_for(text: Option<&str>, now: Timestamp, interval: TimeSpan) -> (r: bool)
    requires
        now.wf(),
        interval.wf(),
    ensures
        r == maintenance_due(
            match text {
                Some(s) => record_in(s@),
                None => None,
            },
            now,
            interval,
        ),
{
    let last = match text {
        None => None,
        Some(s) => match MaintenanceMetadata::from_json(s) {
            Some(m) => {
                proof {
                    let c = choose|m2: MaintenanceMetadata| m2.wf() && maintenance_text(m2) == json_compact(s@);
                    lemma_maintenance_text_injective(c, m);
                }
                m.last_run_at
            },
            None => None,
        },
    };
    match last {
        None => true,
        Some(t) => {
            if !t.le(&now) {
                true
            } else {
                match t.checked_add(&interval) {
                    Some(due_at) => due_at.le(&now),
                    None => false,
                }
            }
        },
    }
}

/// After a collection at `now`, the metadata records `now` as the time
/// maintenance last ran.
pub proof fn lemma_gc_records_run(before: DbView, after: DbView, now: Timestamp, s: SavedConfig)
    requires
        gc_done(before, after, now, s),
        now.wf(),
    ensures
        recorded_run(after.meta) == Some(now),
{
    let m = MaintenanceMetadata { last_run_at: Some(now) };
    let text = after.meta[METADATA_KEY_MAINTENANCE@];
    assert(text == maintenance_text(m));
    lemma_maintenance_text_compact(m);
    assert(m.wf() && maintenance_text(m) == json_compact(text));
    let c = choose|c: MaintenanceMetadata| c.wf() && maintenance_text(c) == json_compact(text);
    lemma_maintenance_text_injective(c, m);
}

/// The keys that a collection lists are exactly the keys due, each once:
/// for the trash, the active keys unused for at least the trash
/// time-to-live; for purging, the keys in the trash for at least the purge
/// time-to-live.
pub proof fn lemma_gc_lists(
    v: DbView,
    keys: Seq<crate::types::key::Key>,
    now: Timestamp,
    ttl: TimeSpan,
    in_trash: bool,
)
    requires
        consistent(v),
        view_wf(v),
        crate::database::ttl_table::keys_in_order(
            keys,
            index_of(v, in_trash).filter(|e: Seq<u8>| entry_expired(e, now, ttl)),
        ),
    ensures
        forall|k: Seq<char>|
            #[trigger] crate::database::ttl_table::keys_view(keys).contains(k) <==> (
            v.entries.contains_key(k) && due(v.entries[k], now, ttl, in_trash)),
        crate::database::ttl_table::keys_view(keys).no_duplicates(),
{
    let ks = crate::database::ttl_table::keys_view(keys);
    let set = index_of(v, in_trash).filter(|e: Seq<u8>| entry_expired(e, now, ttl));
    let es = choose|es: Seq<Seq<u8>>|
        sorted_strict(es) && es.to_set() == set && ks == entry_keys(es);
    lemma_due_keys(v, es, ks, now, ttl, in_trash);
    assert forall|k: Seq<char>| #[trigger] ks.contains(k) implies v.entries.contains_key(k) && due(
        v.entries[k],
        now,
        ttl,
        in_trash,
    ) by {
        let j = choose|j: int| 0 <= j < ks.len() && ks[j] == k;
        assert(ks[j] == k);
    }
}

/// A key used at `t` is not due for the trash before `t` plus the trash
/// time-to-live, and is due from then on.
pub proof fn lemma_touch_resets_trash_timer(v: ValueView, t: Timestamp, now: Timestamp, ttl: TimeSpan)
    ensures
        trash_due(crate::database::db::refreshed(v, t), now, ttl) <==> ts_nanos(t) + span_nanos(
            ttl,
        ) <= ts_nanos(now),
{
}

/// The keys listed in the order of an index are exactly the keys in the
/// state that the index stands for.
pub proof fn lemma_index_keys(v: DbView, keys: Seq<crate::types::key::Key>, in_trash: bool)
    requires
        consistent(v),
        view_wf(v),
        crate::database::ttl_table::keys_in_order(keys, index_of(v, in_trash)),
    ensures
        forall|k: Seq<char>|
            #[trigger] crate::database::ttl_table::keys_view(keys).contains(k) <==> (
            v.entries.contains_key(k) && in_state(v.entries[k].metadata.lifecycle_state, in_trash)),
{
    let ks = crate::database::ttl_table::keys_view(keys);
    let idx = index_of(v, in_trash);
    let es = choose|es: Seq<Seq<u8>>|
        sorted_strict(es) && es.to_set() == idx && ks == entry_keys(es);
    assert forall|k: Seq<char>| #[trigger] ks.contains(k) <==> (v.entries.contains_key(k)
        && in_state(v.entries[k].metadata.lifecycle_state, in_trash)) by {
        if ks.contains(k) {
            let j = choose|j: int| 0 <= j < ks.len() && ks[j] == k;
            assert(es.to_set().contains(es[j]));
            assert(idx.contains(es[j]));
        }
        if v.entries.contains_key(k) && in_state(v.entries[k].metadata.lifecycle_state, in_trash) {
            let s = v.entries[k].metadata.lifecycle_state;
            let e = state_entry(k, s);
            crate::database::db::lemma_state_entry(k, s);
            assert(idx.contains(e));
            assert(es.to_set().contains(e));
            let j = choose|j: int| 0 <= j < es.len() && es[j] == e;
            assert(ks[j] == k);
        }
    }
}

} // verus!
