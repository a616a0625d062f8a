//! Bookkeeping of the fuzzy key search. Two indexes, one of active and one
//! of trashed keys, each hold the keys handed to a fuzzy matcher. A matcher
//! only grows, so each index remembers which keys it was given (`injected`)
//! and which of those count as removed (`tombstones`); matches of removed
//! keys are filtered out, and once enough removals pile up the index is
//! rebuilt from the keys still present.
use crate::types::key::{keys_view, Key};
use vstd::prelude::*;

verus! {

/// Query type for search. Currently fuzzy search only.
#[derive(Debug, Clone)]
pub enum SearchQuery {
    Fuzzy(String),
}

/// A match with its score, and whether the key is in the trash.
#[derive(Debug, Clone)]
pub struct SearchResult {
    pub key: Key,
    pub score: u32,
    pub is_trash: bool,
}

/// Search results separated by lifecycle state.
#[derive(Debug, Clone)]
pub struct SearchResults {
    pub active: Vec<Key>,
    pub trashed: Vec<Key>,
}

/// Case matching behaviour of a search.
#[derive(Debug, Clone, Copy, PartialEq, Eq)]
pub enum CaseMatching {
    /// Always case sensitive.
    Sensitive,
    /// Always case insensitive.
    Insensitive,
    /// Case insensitive unless the query holds an upper-case letter.
    Smart,
}

impl Default for CaseMatching {
    fn default() -> (r: Self)
        ensures
            r == CaseMatching::Smart,
    {
        CaseMatching::Smart
    }
}

/// Configuration of the search.
#[derive(Debug, Clone, Copy)]
pub struct SearchConfig {
    pub case_matching: CaseMatching,
    pub unicode_normalization: bool,
    /// Number of pending removals above which an index is rebuilt.
    pub rebuild_threshold: usize,
}

impl SearchConfig {
    /// Smart case, Unicode normalisation, rebuild after more than 100
    /// pending removals.
    pub fn new() -> (r: Self)
        ensures
            r.case_matching == CaseMatching::Smart,
            r.unicode_normalization,
            r.rebuild_threshold == 100,
    {
        SearchConfig {
            case_matching: CaseMatching::Smart,
            unicode_normalization: true,
            rebuild_threshold: 100,
        }
    }
}

/// One end of a range of result positions.
#[derive(Debug, Clone, Copy, PartialEq, Eq)]
pub enum RangeEnd {
    Included(usize),
    Excluded(usize),
    Unbounded,
}

/// The first position of a range and the position after it.
pub open spec fn spec_bounds(start: RangeEnd, end: RangeEnd) -> (usize, usize) {
    (
        match start {
            RangeEnd::Included(n) => n,
            RangeEnd::Excluded(n) => if n == usize::MAX {
                n
            } else {
                (n + 1) as usize
            },
            RangeEnd::Unbounded => 0,
        },
        match end {
            RangeEnd::Included(n) => if n == usize::MAX {
                n
            } else {
                (n + 1) as usize
            },
            RangeEnd::Excluded(n) => n,
            RangeEnd::Unbounded => usize::MAX,
        },
    )
}

/// The first position of a range and the position after it (saturating).
pub fn to_bounds(start: RangeEnd, end: RangeEnd) -> (r: (usize, usize))
    ensures
        r == spec_bounds(start, end),
{
    let s = match start {
        RangeEnd::Included(n) => n,
        RangeEnd::Excluded(n) => n.saturating_add(1),
        RangeEnd::Unbounded => 0,
    };
    let e = match end {
        RangeEnd::Included(n) => n.saturating_add(1),
        RangeEnd::Excluded(n) => n,
        RangeEnd::Unbounded => usize::MAX,
    };
    (s, e)
}

/// The keys of `s` that `present` holds, in order.
pub open spec fn kept(s: Seq<Seq<char>>, present: spec_fn(Seq<char>) -> bool) -> Seq<Seq<char>>
    decreases s.len(),
{
    if s.len() == 0 {
        Seq::empty()
    } else if present(s.last()) {
        kept(s.drop_last(), present).push(s.last())
    } else {
        kept(s.drop_last(), present)
    }
}

/// The page of `p` that starts at `skip` and holds `take` items (fewer at
/// the end of `p`; none for an empty range).
pub open spec fn page(p: Seq<Seq<char>>, skip: int, take: int) -> Seq<Seq<char>> {
    if skip >= p.len() || take <= 0 {
        Seq::empty()
    } else {
        p.subrange(skip, if skip + take < p.len() {
            skip + take
        } else {
            p.len() as int
        })
    }
}

/// Keeping the present keys of a prefix gives a prefix of keeping them
/// from the whole.
pub proof fn lemma_kept_prefix(s: Seq<Seq<char>>, present: spec_fn(Seq<char>) -> bool, i: int)
    requires
        0 <= i <= s.len(),
    ensures
        kept(s.subrange(0, i), present).len() <= kept(s, present).len(),
        kept(s.subrange(0, i), present) == kept(s, present).subrange(
            0,
            kept(s.subrange(0, i), present).len() as int,
        ),
    decreases s.len() - i,
{
    if i < s.len() {
        lemma_kept_prefix(s, present, i + 1);
        let a = s.subrange(0, i);
        let b = s.subrange(0, i + 1);
        assert(b.drop_last() =~= a);
        assert(b.last() == s[i]);
    } else {
        assert(s.subrange(0, i) =~= s);
    }
}

/// What a sequence with one more element holds.
proof fn lemma_push_contains(s: Seq<Seq<char>>, x: Seq<char>)
    ensures
        forall|y: Seq<char>| #[trigger] s.push(x).contains(y) == (s.contains(y) || y == x),
{
    assert forall|y: Seq<char>| #[trigger] s.push(x).contains(y) == (s.contains(y) || y == x) by {
        if y == x {
            assert(s.push(x)[s.len() as int] == y);
        }
        if s.contains(y) {
            let m = choose|m: int| 0 <= m < s.len() && s[m] == y;
            assert(s.push(x)[m] == y);
        }
        if s.push(x).contains(y) && y != x {
            let m = choose|m: int| 0 <= m < s.len() + 1 && s.push(x)[m] == y;
            assert(s[m] == y);
        }
    }
}

/// The position of `key` among `v`.
fn position(v: &Vec<Key>, key: &Key) -> (r: Option<usize>)
    ensures
        match r {
            Some(i) => i < v@.len() && v@[i as int]@ == key@,
            None => !keys_view(v@).contains(key@),
        },
{
    let mut i: usize = 0;
    while i < v.len()
        invariant
            i <= v@.len(),
            forall|j: int| 0 <= j < i ==> v@[j]@ != key@,
        decreases v@.len() - i,
    {
        if v[i].same_as(key) {
            return Some(i);
        }
        i = i + 1;
    }
    proof {
        assert forall|j: int| 0 <= j < keys_view(v@).len() implies keys_view(v@)[j] != key@ by {
            assert(v@[j]@ != key@);
        }
    }
    None
}

/// The index of one lifecycle state.
pub struct SearchIndex {
    injected: Vec<Key>,
    tombstones: Vec<Key>,
    pending_deletions: usize,
    rebuild_threshold: usize,
}

impl SearchIndex {
    /// The keys handed to the matcher, in order.
    pub closed spec fn injected(&self) -> Seq<Seq<char>> {
        keys_view(self.injected@)
    }

    /// The keys handed to the matcher that count as removed.
    pub closed spec fn tombstones(&self) -> Set<Seq<char>> {
        keys_view(self.tombstones@).to_set()
    }

    /// Removals since the last rebuild.
    pub closed spec fn pending(&self) -> nat {
        self.pending_deletions as nat
    }

    /// Removals above which the index is rebuilt.
    pub closed spec fn threshold(&self) -> nat {
        self.rebuild_threshold as nat
    }

    /// The key is in the index.
    pub open spec fn present(&self, k: Seq<char>) -> bool {
        self.injected().contains(k) && !self.tombstones().contains(k)
    }

    /// Invariant: no key is handed to the matcher twice, and only handed
    /// keys are removed.
    pub closed spec fn wf(&self) -> bool {
        &&& self.injected().no_duplicates()
        &&& keys_view(self.tombstones@).no_duplicates()
        &&& forall|k: Seq<char>| self.tombstones().contains(k) ==> self.injected().contains(k)
    }

    /// An empty index.
    pub fn new(rebuild_threshold: usize) -> (r: Self)
        ensures
            r.wf(),
            r.injected() == Seq::<Seq<char>>::empty(),
            r.tombstones() == Set::<Seq<char>>::empty(),
            r.pending() == 0,
            r.threshold() == rebuild_threshold,
    {
        let r = SearchIndex {
            injected: Vec::new(),
            tombstones: Vec::new(),
            pending_deletions: 0,
            rebuild_threshold,
        };
        proof {
            assert(r.injected() =~= Seq::<Seq<char>>::empty());
            assert(r.tombstones() =~= Set::<Seq<char>>::empty());
        }
        r
    }

    /// Whether the key is in the index.
    pub fn is_present(&self, key: &Key) -> (r: bool)
        requires
            self.wf(),
        ensures
            r == self.present(key@),
    {
        match position(&self.injected, key) {
            None => false,
            Some(i) => {
                proof {
                    assert(keys_view(self.injected@)[i as int] == key@);
                    assert(self.injected().contains(key@));
                }
                match position(&self.tombstones, key) {
                    None => true,
                    Some(j) => {
                        proof {
                            assert(keys_view(self.tombstones@)[j as int] == key@);
                        }
                        false
                    },
                }
            },
        }
    }

    /// Adds `key`. Returns whether the key is new to the index, and must
    /// then be handed to the matcher; a removed key is revived.
    pub fn insert(&mut self, key: Key) -> (r: bool)
        requires
            old(self).wf(),
        ensures
            final(self).wf(),
            r == !old(self).injected().contains(key@),
            final(self).injected() == if r {
                old(self).injected().push(key@)
            } else {
                old(self).injected()
            },
            final(self).tombstones() == old(self).tombstones().remove(key@),
            final(self).pending() == old(self).pending(),
            final(self).threshold() == old(self).threshold(),
    {
        match position(&self.injected, &key) {
            None => {
                let ghost t0 = self.tombstones();
                proof {
                    assert(!t0.contains(key@));
                    assert(t0.remove(key@) =~= t0);
                }
                let ghost pre = self.injected@;
                self.injected.push(key);
                proof {
                    assert(keys_view(self.injected@) =~= keys_view(pre).push(key@));
                    lemma_push_contains(keys_view(pre), key@);
                    assert(self.injected().no_duplicates());
                }
                true
            },
            Some(i) => {
                proof {
                    assert(keys_view(self.injected@)[i as int] == key@);
                    assert(self.injected().contains(key@));
                }
                match position(&self.tombstones, &key) {
                    None => {
                        proof {
                            assert(self.tombstones().remove(key@) =~= self.tombstones());
                        }
                    },
                    Some(j) => {
                        let ghost pre = keys_view(self.tombstones@);
                        self.tombstones.remove(j);
                        proof {
                            let post = keys_view(self.tombstones@);
                            assert(post =~= pre.remove(j as int));
                            assert(pre[j as int] == key@);
                            assert forall|x: Seq<char>| #[trigger] post.contains(x) == (pre.contains(x) && x != key@) by {
                                if pre.contains(x) && x != key@ {
                                    let m = choose|m: int| 0 <= m < pre.len() && pre[m] == x;
                                    if m < j {
                                        assert(post[m] == x);
                                    } else {
                                        assert(post[m - 1] == x);
                                    }
                                }
                                if post.contains(x) {
                                    let m = choose|m: int| 0 <= m < post.len() && post[m] == x;
                                    if m < j {
                                        assert(pre[m] == x);
                                    } else {
                                        assert(pre[m + 1] == x);
                                        assert(m + 1 != j);
                                    }
                                }
                            }
                            assert(self.tombstones() =~= pre.to_set().remove(key@));
                            assert(post.no_duplicates()) by {
                                assert forall|a: int, b: int| 0 <= a < b < post.len() implies post[a] != post[b] by {
                                    let a2 = if a < j { a } else { a + 1 };
                                    let b2 = if b < j { b } else { b + 1 };
                                    assert(post[a] == pre[a2]);
                                    assert(post[b] == pre[b2]);
                                }
                            }
                        }
                    },
                }
                false
            },
        }
    }

    /// Marks `key` as removed, when the index has it. A removal that was
    /// not pending yet counts towards the rebuild.
    pub fn remove(&mut self, key: &Key)
        requires
            old(self).wf(),
            old(self).pending() < usize::MAX,
        ensures
            final(self).wf(),
            final(self).injected() == old(self).injected(),
            final(self).tombstones() == if old(self).injected().contains(key@) {
                old(self).tombstones().insert(key@)
            } else {
                old(self).tombstones()
            },
            final(self).pending() == if old(self).present(key@) {
                old(self).pending() + 1
            } else {
                old(self).pending()
            },
            final(self).threshold() == old(self).threshold(),
    {
        match position(&self.injected, key) {
            None => {
                return;
            },
            Some(i) => {
                proof {
                    assert(keys_view(self.injected@)[i as int] == key@);
                }
            },
        }
        match position(&self.tombstones, key) {
            Some(j) => {
                proof {
                    assert(keys_view(self.tombstones@)[j as int] == key@);
                    assert(self.tombstones().insert(key@) =~= self.tombstones());
                }
            },
            None => {
                let ghost pre = keys_view(self.tombstones@);
                self.tombstones.push(key.clone());
                self.pending_deletions = self.pending_deletions + 1;
                proof {
                    let post = keys_view(self.tombstones@);
                    assert(post =~= pre.push(key@));
                    assert forall|x: Seq<char>| #[trigger] post.contains(x) == (pre.contains(x) || x == key@) by {
                        if x == key@ {
                            assert(post[pre.len() as int] == x);
                        }
                        if pre.contains(x) {
                            let m = choose|m: int| 0 <= m < pre.len() && pre[m] == x;
                            assert(post[m] == x);
                        }
                        if post.contains(x) && x != key@ {
                            let m = choose|m: int| 0 <= m < post.len() && post[m] == x;
                            assert(m < pre.len());
                            assert(pre[m] == x);
                        }
                    }
                    assert(self.tombstones() =~= pre.to_set().insert(key@));
                }
            },
        }
    }

    /// Whether enough removals are pending for a rebuild.
    pub fn needs_rebuild(&self) -> (r: bool)
        ensures
            r == (self.pending() > self.threshold()),
    {
        self.pending_deletions > self.rebuild_threshold
    }

    /// Starts over from the keys still present: they become the keys handed
    /// to the matcher, no removal is pending, and they are returned, to be
    /// handed to a fresh matcher.
    pub fn rebuild(&mut self) -> (r: Vec<Key>)
        requires
            old(self).wf(),
        ensures
            final(self).wf(),
            keys_view(r@) == final(self).injected(),
            final(self).injected() == kept(
                old(self).injected(),
                |k: Seq<char>| !old(self).tombstones().contains(k),
            ),
            final(self).tombstones() == Set::<Seq<char>>::empty(),
            final(self).pending() == 0,
            final(self).threshold() == old(self).threshold(),
            forall|k: Seq<char>| #[trigger] final(self).present(k) == old(self).present(k),
    {
        let ghost inj = self.injected();
        let ghost tomb = self.tombstones();
        let ghost pred = |k: Seq<char>| !tomb.contains(k);
        let mut survivors: Vec<Key> = Vec::new();
        let mut i: usize = 0;
        while i < self.injected.len()
            invariant
                i <= self.injected@.len(),
                inj == keys_view(self.injected@),
                tomb == self.tombstones(),
                pred == (|k: Seq<char>| !tomb.contains(k)),
                self.wf(),
                keys_view(survivors@) == kept(inj.subrange(0, i as int), pred),
                forall|k: Seq<char>|
                    #[trigger] keys_view(survivors@).contains(k) ==> inj.subrange(
                        0,
                        i as int,
                    ).contains(k) && !tomb.contains(k),
                keys_view(survivors@).no_duplicates(),
            decreases self.injected@.len() - i,
        {
            let ghost pre = survivors@;
            let ghost k = self.injected@[i as int]@;
            proof {
                assert(inj.subrange(0, i + 1).drop_last() =~= inj.subrange(0, i as int));
                assert(inj.subrange(0, i + 1).last() == k);
            }
            match position(&self.tombstones, &self.injected[i]) {
                None => {
                    survivors.push(self.injected[i].clone());
                    proof {
                        assert(keys_view(survivors@) =~= keys_view(pre).push(k));
                        assert(!keys_view(pre).contains(k)) by {
                            if keys_view(pre).contains(k) {
                                assert(inj.subrange(0, i as int).contains(k));
                                let m = choose|m: int| 0 <= m < i && inj.subrange(0, i as int)[m] == k;
                                assert(inj[m] == inj[i as int]);
                            }
                        }
                        assert forall|x: Seq<char>| #[trigger] keys_view(survivors@).contains(x) implies inj.subrange(0, i + 1).contains(x) && !tomb.contains(x) by {
                            if x == k {
                                assert(inj.subrange(0, i + 1)[i as int] == x);
                            } else {
                                assert(keys_view(pre).contains(x));
                                let m = choose|m: int| 0 <= m < i && inj.subrange(0, i as int)[m] == x;
                                assert(inj.subrange(0, i + 1)[m] == x);
                            }
                        }
                    }
                },
                Some(j) => {
                    proof {
                        assert(keys_view(self.tombstones@)[j as int] == k);
                        assert(tomb.contains(k));
                        assert forall|x: Seq<char>| #[trigger] keys_view(survivors@).contains(x) implies inj.subrange(0, i + 1).contains(x) && !tomb.contains(x) by {
                            let m = choose|m: int| 0 <= m < i && inj.subrange(0, i as int)[m] == x;
                            assert(inj.subrange(0, i + 1)[m] == x);
                        }
                    }
                },
            }
            i = i + 1;
        }
        proof {
            assert(inj.subrange(0, i as int) =~= inj);
        }
        let ghost old_self = *self;
        self.injected = survivors.clone();
        self.tombstones = Vec::new();
        self.pending_deletions = 0;
        proof {
            assert(keys_view(self.tombstones@) =~= Seq::<Seq<char>>::empty());
            assert(self.tombstones() =~= Set::<Seq<char>>::empty());
            assert forall|k: Seq<char>| #[trigger] self.present(k) == old_self.present(k) by {
                if old_self.present(k) {
                    let m = choose|m: int| 0 <= m < inj.len() && inj[m] == k;
                    lemma_kept_member(inj, pred, m);
                }
            }
        }
        survivors
    }

    /// The present keys among `matched`, in order, from position `bounds.0`
    /// on (counting present keys only): `bounds.1 - bounds.0` of them at
    /// most, none for an empty range.
    pub fn present_page(&self, matched: &Vec<Key>, bounds: (usize, usize)) -> (r: Vec<Key>)
        requires
            self.wf(),
        ensures
            keys_view(r@) == page(
                kept(keys_view(matched@), |k: Seq<char>| self.present(k)),
                bounds.0 as int,
                if bounds.1 >= bounds.0 {
                    bounds.1 - bounds.0
                } else {
                    0
                },
            ),
    {
        let ghost ms = keys_view(matched@);
        let ghost pred = |k: Seq<char>| self.present(k);
        let ghost full = kept(ms, pred);
        let skip = bounds.0;
        let take = bounds.1.saturating_sub(bounds.0);
        if take == 0 {
            return Vec::new();
        }
        let ghost n: int = if take < 1 {
            1
        } else {
            take as int
        };
        let mut results: Vec<Key> = Vec::new();
        let mut count: usize = 0;
        let mut i: usize = 0;
        let mut done = false;
        while i < matched.len() && !done
            invariant
                i <= matched@.len(),
                ms == keys_view(matched@),
                pred == (|k: Seq<char>| self.present(k)),
                full == kept(ms, pred),
                self.wf(),
                n == if take < 1 {
                    1
                } else {
                    take as int
                },
                count == kept(ms.subrange(0, i as int), pred).len(),
                count <= i,
                keys_view(results@) == if count <= skip {
                    Seq::<Seq<char>>::empty()
                } else {
                    kept(ms.subrange(0, i as int), pred).subrange(skip as int, count as int)
                },
                !done ==> results@.len() < n,
                done ==> results@.len() == n && count > skip,
            decreases matched@.len() - i, if done { 0int } else { 1int },
        {
            let ghost pre = results@;
            let ghost pk = kept(ms.subrange(0, i as int), pred);
            let ghost k = matched@[i as int]@;
            proof {
                assert(ms.subrange(0, i + 1).drop_last() =~= ms.subrange(0, i as int));
                assert(ms.subrange(0, i + 1).last() == k);
                assert(ms[i as int] == k);
            }
            if self.is_present(&matched[i]) {
                if count >= skip {
                    results.push(matched[i].clone());
                    proof {
                        assert(keys_view(results@) =~= keys_view(pre).push(k));
                        assert(kept(ms.subrange(0, i + 1), pred) == pk.push(k));
                        assert(keys_view(results@) =~= pk.push(k).subrange(skip as int, count + 1));
                    }
                    if results.len() >= take {
                        done = true;
                    }
                }
                count = count + 1;
            }
            i = i + 1;
        }
        proof {
            let pi = kept(ms.subrange(0, i as int), pred);
            lemma_kept_prefix(ms, pred, i as int);
            if !done {
                assert(ms.subrange(0, i as int) =~= ms);
            }
            let want = page(full, skip as int, take as int);
            if count <= skip {
                if !done {
                    assert(keys_view(results@) =~= want);
                }
            } else {
                assert(pi == full.subrange(0, pi.len() as int));
                assert(keys_view(results@) =~= want);
            }
        }
        results
    }
}

/// A key kept from a sequence is one of its keys that `present` holds.
pub proof fn lemma_kept_member(s: Seq<Seq<char>>, present: spec_fn(Seq<char>) -> bool, i: int)
    requires
        0 <= i < s.len(),
        present(s[i]),
    ensures
        kept(s, present).contains(s[i]),
    decreases s.len(),
{
    if i == s.len() - 1 {
        assert(kept(s, present).last() == s[i]);
    } else {
        lemma_kept_member(s.drop_last(), present, i);
        let k = kept(s.drop_last(), present);
        let j = choose|j: int| 0 <= j < k.len() && k[j] == s[i];
        if present(s.last()) {
            assert(kept(s, present)[j] == s[i]);
        }
    }
}

/// Keys to hand to the matchers of the two indexes.
#[derive(Debug)]
pub struct SearchUpdate {
    pub active: Vec<Key>,
    pub trash: Vec<Key>,
}

/// Keys to hand to fresh matchers after a rebuild: `None` for an index that
/// was not rebuilt.
#[derive(Debug)]
pub struct Rebuilt {
    pub active: Option<Vec<Key>>,
    pub trash: Option<Vec<Key>>,
}

/// The two indexes of the search: active keys and trashed keys.
pub struct SearchEngine {
    active: SearchIndex,
    trash: SearchIndex,
    config: SearchConfig,
}

impl SearchEngine {
    /// The index of active keys.
    pub closed spec fn active_index(&self) -> SearchIndex {
        self.active
    }

    /// The index of trashed keys.
    pub closed spec fn trash_index(&self) -> SearchIndex {
        self.trash
    }

    /// The configuration.
    pub closed spec fn spec_config(&self) -> SearchConfig {
        self.config
    }

    /// The key is among the active keys.
    pub open spec fn in_active(&self, k: Seq<char>) -> bool {
        self.active_index().present(k)
    }

    /// The key is among the trashed keys.
    pub open spec fn in_trash(&self, k: Seq<char>) -> bool {
        self.trash_index().present(k)
    }

    /// Both indexes can count one more removal.
    pub open spec fn can_count(&self) -> bool {
        self.active_index().pending() < usize::MAX && self.trash_index().pending() < usize::MAX
    }

    /// Invariant of both indexes; they rebuild at the configured threshold.
    pub closed spec fn wf(&self) -> bool {
        &&& self.active.wf()
        &&& self.trash.wf()
        &&& self.active.threshold() == self.config.rebuild_threshold
        &&& self.trash.threshold() == self.config.rebuild_threshold
    }

    /// Whether both indexes can count one more removal.
    pub fn can_remove(&self) -> (r: bool)
        ensures
            r == self.can_count(),
    {
        self.active.pending_deletions < usize::MAX && self.trash.pending_deletions < usize::MAX
    }

    /// The configuration.
    pub fn config(&self) -> (r: &SearchConfig)
        ensures
            *r == self.spec_config(),
    {
        &self.config
    }

    /// Indexes holding `active` and `trashed`, and the keys to hand to the
    /// matchers.
    pub fn new(active: Vec<Key>, trashed: Vec<Key>, config: SearchConfig) -> (r: (
        Self,
        SearchUpdate,
    ))
        ensures
            r.0.wf(),
            r.0.spec_config() == config,
            forall|k: Seq<char>| #[trigger] r.0.in_active(k) == keys_view(active@).contains(k),
            forall|k: Seq<char>| #[trigger] r.0.in_trash(k) == keys_view(trashed@).contains(k),
            keys_view(r.1.active@) == r.0.active_index().injected(),
            keys_view(r.1.trash@) == r.0.trash_index().injected(),
            r.0.active_index().pending() == 0,
            r.0.trash_index().pending() == 0,
    {
        let (a, ua) = Self::fill(active, config.rebuild_threshold);
        let (t, ut) = Self::fill(trashed, config.rebuild_threshold);
        (SearchEngine { active: a, trash: t, config }, SearchUpdate { active: ua, trash: ut })
    }

    /// An index holding `keys`, and the keys handed to its matcher.
    fn fill(keys: Vec<Key>, threshold: usize) -> (r: (SearchIndex, Vec<Key>))
        ensures
            r.0.wf(),
            r.0.threshold() == threshold,
            r.0.pending() == 0,
            r.0.tombstones() == Set::<Seq<char>>::empty(),
            forall|k: Seq<char>| #[trigger] r.0.present(k) == keys_view(keys@).contains(k),
            keys_view(r.1@) == r.0.injected(),
    {
        let mut idx = SearchIndex::new(threshold);
        let mut handed: Vec<Key> = Vec::new();
        let mut i: usize = 0;
        while i < keys.len()
            invariant
                i <= keys@.len(),
                idx.wf(),
                idx.threshold() == threshold,
                idx.pending() == 0,
                idx.tombstones() == Set::<Seq<char>>::empty(),
                keys_view(handed@) == idx.injected(),
                forall|k: Seq<char>|
                    #[trigger] idx.injected().contains(k) == keys_view(keys@).subrange(
                        0,
                        i as int,
                    ).contains(k),
            decreases keys@.len() - i,
        {
            let key = keys[i].clone();
            let ghost pre = idx.injected();
            let ghost pre_h = handed@;
            let ghost kv = keys_view(keys@);
            proof {
                assert(kv.subrange(0, i + 1) =~= kv.subrange(0, i as int).push(key@));
                lemma_push_contains(kv.subrange(0, i as int), key@);
                lemma_push_contains(pre, key@);
                assert(idx.tombstones().remove(key@) =~= Set::<Seq<char>>::empty());
            }
            if idx.insert(key.clone()) {
                handed.push(key);
                proof {
                    assert(keys_view(handed@) =~= keys_view(pre_h).push(keys@[i as int]@));
                }
            }
            i = i + 1;
        }
        proof {
            assert(keys_view(keys@).subrange(0, i as int) =~= keys_view(keys@));
        }
        (idx, handed)
    }

    /// Adds a key as active (and not trashed). Returns the keys to hand to
    /// the active matcher.
    pub fn add_active(&mut self, key: Key) -> (r: Vec<Key>)
        requires
            old(self).wf(),
            old(self).can_count(),
        ensures
            final(self).wf(),
            final(self).spec_config() == old(self).spec_config(),
            final(self).in_active(key@),
            !final(self).in_trash(key@),
            forall|k: Seq<char>|
                k != key@ ==> #[trigger] final(self).in_active(k) == old(self).in_active(k)
                    && final(self).in_trash(k) == old(self).in_trash(k),
            keys_view(r@) == if old(self).active_index().injected().contains(key@) {
                Seq::<Seq<char>>::empty()
            } else {
                seq![key@]
            },
    {
        self.trash.remove(&key);
        Self::insert_into(&mut self.active, key)
    }

    /// Adds a key as trashed (and not active). Returns the keys to hand to
    /// the trash matcher.
    pub fn add_trashed(&mut self, key: Key) -> (r: Vec<Key>)
        requires
            old(self).wf(),
            old(self).can_count(),
        ensures
            final(self).wf(),
            final(self).spec_config() == old(self).spec_config(),
            final(self).in_trash(key@),
            !final(self).in_active(key@),
            forall|k: Seq<char>|
                k != key@ ==> #[trigger] final(self).in_active(k) == old(self).in_active(k)
                    && final(self).in_trash(k) == old(self).in_trash(k),
            keys_view(r@) == if old(self).trash_index().injected().contains(key@) {
                Seq::<Seq<char>>::empty()
            } else {
                seq![key@]
            },
    {
        self.active.remove(&key);
        Self::insert_into(&mut self.trash, key)
    }

    /// Moves a key to the trash. Returns the keys to hand to the trash
    /// matcher.
    pub fn trash(&mut self, key: &Key) -> (r: Vec<Key>)
        requires
            old(self).wf(),
            old(self).can_count(),
        ensures
            final(self).wf(),
            final(self).spec_config() == old(self).spec_config(),
            final(self).in_trash(key@),
            !final(self).in_active(key@),
            forall|k: Seq<char>|
                k != key@ ==> #[trigger] final(self).in_active(k) == old(self).in_active(k)
                    && final(self).in_trash(k) == old(self).in_trash(k),
            keys_view(r@) == if old(self).trash_index().injected().contains(key@) {
                Seq::<Seq<char>>::empty()
            } else {
                seq![key@]
            },
    {
        self.active.remove(key);
        Self::insert_into(&mut self.trash, key.clone())
    }

    /// Moves a key back from the trash. Returns the keys to hand to the
    /// active matcher.
    pub fn restore(&mut self, key: &Key) -> (r: Vec<Key>)
        requires
            old(self).wf(),
            old(self).can_count(),
        ensures
            final(self).wf(),
            final(self).spec_config() == old(self).spec_config(),
            final(self).in_active(key@),
            !final(self).in_trash(key@),
            forall|k: Seq<char>|
                k != key@ ==> #[trigger] final(self).in_active(k) == old(self).in_active(k)
                    && final(self).in_trash(k) == old(self).in_trash(k),
            keys_view(r@) == if old(self).active_index().injected().contains(key@) {
                Seq::<Seq<char>>::empty()
            } else {
                seq![key@]
            },
    {
        self.trash.remove(key);
        Self::insert_into(&mut self.active, key.clone())
    }

    /// Removes a key from both indexes.
    pub fn remove(&mut self, key: &Key)
        requires
            old(self).wf(),
            old(self).can_count(),
        ensures
            final(self).wf(),
            final(self).spec_config() == old(self).spec_config(),
            !final(self).in_active(key@),
            !final(self).in_trash(key@),
            forall|k: Seq<char>|
                k != key@ ==> #[trigger] final(self).in_active(k) == old(self).in_active(k)
                    && final(self).in_trash(k) == old(self).in_trash(k),
    {
        self.active.remove(key);
        self.trash.remove(key);
    }

    /// Renames a key in whichever index holds it (the active one first).
    /// Returns the keys to hand to the matchers.
    pub fn rename(&mut self, old_key: &Key, new_key: Key) -> (r: SearchUpdate)
        requires
            old(self).wf(),
            old(self).can_count(),
        ensures
            final(self).wf(),
            final(self).spec_config() == old(self).spec_config(),
            old(self).in_active(old_key@) ==> final(self).in_active(new_key@) && (old_key@
                != new_key@ ==> !final(self).in_active(old_key@)) && final(self).in_trash(
                new_key@,
            ) == old(self).in_trash(new_key@),
            !old(self).in_active(old_key@) && old(self).in_trash(old_key@) ==> final(self).in_trash(
                new_key@,
            ) && (old_key@ != new_key@ ==> !final(self).in_trash(old_key@)) && final(self).in_active(new_key@) == old(self).in_active(new_key@),
            !old(self).in_active(old_key@) && !old(self).in_trash(old_key@) ==> *final(self)
                == *old(self),
            forall|k: Seq<char>|
                k != old_key@ && k != new_key@ ==> #[trigger] final(self).in_active(k) == old(self).in_active(k) && final(self).in_trash(k) == old(self).in_trash(k),
            old(self).in_active(old_key@) ==> r.trash@.len() == 0 && keys_view(r.active@) == if old(
                self,
            ).active_index().injected().contains(new_key@) {
                Seq::<Seq<char>>::empty()
            } else {
                seq![new_key@]
            },
            !old(self).in_active(old_key@) && old(self).in_trash(old_key@) ==> r.active@.len() == 0
                && keys_view(r.trash@) == if old(self).trash_index().injected().contains(new_key@) {
                Seq::<Seq<char>>::empty()
            } else {
                seq![new_key@]
            },
            !old(self).in_active(old_key@) && !old(self).in_trash(old_key@) ==> r.active@.len() == 0
                && r.trash@.len() == 0,
    {
        if self.active.is_present(old_key) {
            self.active.remove(old_key);
            let a = Self::insert_into(&mut self.active, new_key);
            return SearchUpdate { active: a, trash: Vec::new() };
        }
        if self.trash.is_present(old_key) {
            self.trash.remove(old_key);
            let t = Self::insert_into(&mut self.trash, new_key);
            return SearchUpdate { active: Vec::new(), trash: t };
        }
        SearchUpdate { active: Vec::new(), trash: Vec::new() }
    }

    /// Inserts into one index; the keys to hand to its matcher.
    fn insert_into(idx: &mut SearchIndex, key: Key) -> (r: Vec<Key>)
        requires
            old(idx).wf(),
        ensures
            final(idx).wf(),
            final(idx).present(key@),
            final(idx).pending() == old(idx).pending(),
            final(idx).threshold() == old(idx).threshold(),
            forall|k: Seq<char>|
                k != key@ ==> #[trigger] final(idx).present(k) == old(idx).present(k),
            final(idx).injected().contains(key@),
            keys_view(r@) == if old(idx).injected().contains(key@) {
                Seq::<Seq<char>>::empty()
            } else {
                seq![key@]
            },
    {
        let ghost pre = old(idx).injected();
        let k2 = key.clone();
        let fresh = idx.insert(key);
        proof {
            lemma_push_contains(pre, k2@);
        }
        let mut out: Vec<Key> = Vec::new();
        if fresh {
            out.push(k2);
            proof {
                assert(keys_view(out@) =~= seq![k2@]);
            }
        } else {
            proof {
                assert(keys_view(out@) =~= Seq::<Seq<char>>::empty());
            }
        }
        out
    }

    /// The search results from what the matchers found: the keys still
    /// present in each index, paged by `active_bounds` and `trashed_bounds`
    /// (first position, position after the last).
    pub fn results(
        &self,
        active_matches: &Vec<Key>,
        trash_matches: &Vec<Key>,
        active_bounds: (usize, usize),
        trashed_bounds: (usize, usize),
    ) -> (r: SearchResults)
        requires
            self.wf(),
        ensures
            keys_view(r.active@) == page(
                kept(keys_view(active_matches@), |k: Seq<char>| self.in_active(k)),
                active_bounds.0 as int,
                if active_bounds.1 >= active_bounds.0 {
                    active_bounds.1 - active_bounds.0
                } else {
                    0
                },
            ),
            keys_view(r.trashed@) == page(
                kept(keys_view(trash_matches@), |k: Seq<char>| self.in_trash(k)),
                trashed_bounds.0 as int,
                if trashed_bounds.1 >= trashed_bounds.0 {
                    trashed_bounds.1 - trashed_bounds.0
                } else {
                    0
                },
            ),
    {
        let active = self.active.present_page(active_matches, active_bounds);
        let trashed = self.trash.present_page(trash_matches, trashed_bounds);
        proof {
            assert((|k: Seq<char>| self.in_active(k)) == (|k: Seq<char>| self.active.present(k)));
            assert((|k: Seq<char>| self.in_trash(k)) == (|k: Seq<char>| self.trash.present(k)));
        }
        SearchResults { active, trashed }
    }

    /// Rebuilds the indexes whose pending removals exceed the threshold.
    /// Which keys each index holds does not change.
    pub fn maintenance_compact(&mut self) -> (r: Rebuilt)
        requires
            old(self).wf(),
        ensures
            final(self).wf(),
            final(self).spec_config() == old(self).spec_config(),
            forall|k: Seq<char>|
                #[trigger] final(self).in_active(k) == old(self).in_active(k) && final(self).in_trash(k) == old(self).in_trash(k),
            r.active is Some == (old(self).active_index().pending() > old(self).active_index().threshold()),
            r.trash is Some == (old(self).trash_index().pending() > old(self).trash_index().threshold()),
            r.active matches Some(v) ==> keys_view(v@) == final(self).active_index().injected(),
            r.trash matches Some(v) ==> keys_view(v@) == final(self).trash_index().injected(),
    {
        let active = if self.active.needs_rebuild() {
            Some(self.active.rebuild())
        } else {
            None
        };
        let trash = if self.trash.needs_rebuild() {
            Some(self.trash.rebuild())
        } else {
            None
        };
        Rebuilt { active, trash }
    }
}

/// Whether a matcher is ticked once more before its results are read:
/// time is left before the deadline (`remaining_nanos` of it) and the
/// matcher was still running after its last tick (before the first tick it
/// counts as running).
pub fn keep_matching(remaining_nanos: u64, running: bool) -> (r: bool)
    ensures
        r == (remaining_nanos > 0 && running),
{
    remaining_nanos > 0 && running
}

/// Compacting changes no search result: an engine whose indexes hold the
/// same keys as another (as `maintenance_compact` ensures of the engine
/// after it) keeps the same matches, and so gives the same page, for any
/// output of the matchers and any page bounds.
pub proof fn lemma_compact_keeps_results(
    before: SearchEngine,
    after: SearchEngine,
    active_matches: Seq<Seq<char>>,
    trash_matches: Seq<Seq<char>>,
    skip: int,
    take: int,
)
    requires
        forall|k: Seq<char>| #[trigger] after.in_active(k) == before.in_active(k),
        forall|k: Seq<char>| #[trigger] after.in_trash(k) == before.in_trash(k),
    ensures
        kept(active_matches, |k: Seq<char>| after.in_active(k)) == kept(
            active_matches,
            |k: Seq<char>| before.in_active(k),
        ),
        kept(trash_matches, |k: Seq<char>| after.in_trash(k)) == kept(
            trash_matches,
            |k: Seq<char>| before.in_trash(k),
        ),
        page(kept(active_matches, |k: Seq<char>| after.in_active(k)), skip, take) == page(
            kept(active_matches, |k: Seq<char>| before.in_active(k)),
            skip,
            take,
        ),
        page(kept(trash_matches, |k: Seq<char>| after.in_trash(k)), skip, take) == page(
            kept(trash_matches, |k: Seq<char>| before.in_trash(k)),
            skip,
            take,
        ),
{
    let pa = |k: Seq<char>| after.in_active(k);
    let pb = |k: Seq<char>| before.in_active(k);
    assert forall|k: Seq<char>| #[trigger] pa(k) == pb(k) by {
        assert(after.in_active(k) == before.in_active(k));
    }
    assert(pa =~= pb);
    let ta = |k: Seq<char>| after.in_trash(k);
    let tb = |k: Seq<char>| before.in_trash(k);
    assert forall|k: Seq<char>| #[trigger] ta(k) == tb(k) by {
        assert(after.in_trash(k) == before.in_trash(k));
    }
    assert(ta =~= tb);
}

} // verus!
