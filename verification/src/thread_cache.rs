//! The thread cache: a memo from orbit elements to the terminal fate of
//! the orbit through them, split into a mutable local plane and an
//! immutable shared snapshot plane.
//!
//! Entries are held in a key-unique vector of pairs; contracts speak of
//! the map this vector denotes.

use vstd::prelude::*;
use crate::digits::BigDecimalInt;
use crate::digits::spec_min;

verus! {

/// `info` with its distance from the seed pushed `idx` positions on.
pub open spec fn with_offset(info: ThreadInfoV, idx: int) -> ThreadInfoV {
    ThreadInfoV { iterations_from_seed: (info.iterations_from_seed + idx) as u32, ..info }
}

/// The map after recording the first `limit` elements of an orbit path,
/// each with its own distance from the seed.
pub open spec fn thread_entries(
    m: Map<Seq<u8>, ThreadInfoV>,
    path: Seq<BigDecimalInt>,
    info: ThreadInfoV,
    limit: int,
) -> Map<Seq<u8>, ThreadInfoV>
    decreases limit,
{
    if limit <= 0 {
        m
    } else {
        thread_entries(m, path, info, limit - 1).insert(path[limit - 1]@, with_offset(info, limit - 1))
    }
}

/// Terminal fate of an orbit observed earlier, recorded for one element
/// of the orbit's path.
pub struct ThreadInfo {
    pub seed_number: BigDecimalInt,
    pub iterations_from_seed: u32,
    pub max_iterations_tested: u32,
    pub final_digits: usize,
    pub reached_palindrome: bool,
    pub palindrome_at_iteration: Option<u32>,
}

/// The mathematical content of a `ThreadInfo`.
pub ghost struct ThreadInfoV {
    pub seed: Seq<u8>,
    pub iterations_from_seed: u32,
    pub max_iterations_tested: u32,
    pub final_digits: usize,
    pub reached_palindrome: bool,
    pub palindrome_at_iteration: Option<u32>,
}

impl View for ThreadInfo {
    type V = ThreadInfoV;

    open spec fn view(&self) -> ThreadInfoV {
        ThreadInfoV {
            seed: self.seed_number@,
            iterations_from_seed: self.iterations_from_seed,
            max_iterations_tested: self.max_iterations_tested,
            final_digits: self.final_digits,
            reached_palindrome: self.reached_palindrome,
            palindrome_at_iteration: self.palindrome_at_iteration,
        }
    }
}

impl Clone for ThreadInfo {
    fn clone(&self) -> (r: Self)
        ensures
            r@ == self@,
    {
        ThreadInfo {
            seed_number: self.seed_number.clone(),
            iterations_from_seed: self.iterations_from_seed,
            max_iterations_tested: self.max_iterations_tested,
            final_digits: self.final_digits,
            reached_palindrome: self.reached_palindrome,
            palindrome_at_iteration: self.palindrome_at_iteration,
        }
    }
}

/// One stored pair: an orbit element and the fate recorded for it.
pub type CacheEntry = (BigDecimalInt, ThreadInfo);

/// The map a vector of entries denotes; later entries overwrite earlier
/// ones with the same key.
pub open spec fn entries_map(s: Seq<CacheEntry>) -> Map<Seq<u8>, ThreadInfoV>
    decreases s.len(),
{
    if s.len() == 0 {
        Map::empty()
    } else {
        entries_map(s.drop_last()).insert(s.last().0@, s.last().1@)
    }
}

/// No two entries share a key.
pub open spec fn entries_unique(s: Seq<CacheEntry>) -> bool {
    forall|i: int, j: int| 0 <= i < j < s.len() ==> (#[trigger] s[i]).0@ != (#[trigger] s[j]).0@
}

/// A key is in the map exactly when some entry holds it.
pub proof fn lemma_entries_map_dom(s: Seq<CacheEntry>, k: Seq<u8>)
    ensures
        entries_map(s).contains_key(k) <==> exists|i: int|
            0 <= i < s.len() && (#[trigger] s[i]).0@ == k,
    decreases s.len(),
{
    if s.len() > 0 {
        lemma_entries_map_dom(s.drop_last(), k);
        if entries_map(s).contains_key(k) {
            if s.last().0@ == k {
                assert(s[s.len() - 1].0@ == k);
            } else {
                let i = choose|i: int| 0 <= i < s.drop_last().len() && (#[trigger] s.drop_last()[i]).0@ == k;
                assert(s[i].0@ == k);
            }
        }
        if exists|i: int| 0 <= i < s.len() && (#[trigger] s[i]).0@ == k {
            let i = choose|i: int| 0 <= i < s.len() && (#[trigger] s[i]).0@ == k;
            if i < s.len() - 1 {
                assert(s.drop_last()[i].0@ == k);
            }
        }
    }
}

/// With unique keys, each entry's value is the map's value for its key.
pub proof fn lemma_entries_map_index(s: Seq<CacheEntry>, i: int)
    requires
        entries_unique(s),
        0 <= i < s.len(),
    ensures
        entries_map(s).contains_key(s[i].0@),
        entries_map(s)[s[i].0@] == s[i].1@,
    decreases s.len(),
{
    if i == s.len() - 1 {
        assert(s.last() == s[i]);
    } else {
        assert(entries_unique(s.drop_last()));
        lemma_entries_map_index(s.drop_last(), i);
        assert(s.drop_last()[i] == s[i]);
        assert(s[i].0@ != s[s.len() - 1].0@);
    }
}

/// Appending a fresh pair inserts it into the map.
pub proof fn lemma_entries_map_push(s: Seq<CacheEntry>, p: CacheEntry)
    ensures
        entries_map(s.push(p)) == entries_map(s).insert(p.0@, p.1@),
{
    assert(s.push(p).drop_last() =~= s);
    assert(s.push(p).last() == p);
}

/// Updating the entry that holds a key rewrites that key's value.
pub proof fn lemma_entries_map_update(s: Seq<CacheEntry>, i: int, p: CacheEntry)
    requires
        entries_unique(s),
        0 <= i < s.len(),
        s[i].0@ == p.0@,
    ensures
        entries_map(s.update(i, p)) =~= entries_map(s).insert(p.0@, p.1@),
        entries_unique(s.update(i, p)),
    decreases s.len(),
{
    let t = s.update(i, p);
    assert forall|a: int, b: int| 0 <= a < b < t.len() implies (#[trigger] t[a]).0@ != (
    #[trigger] t[b]).0@ by {
        assert(s[a].0@ != s[b].0@);
    }
    if i == s.len() - 1 {
        assert(t.drop_last() =~= s.drop_last());
        assert(t.last() == p);
        assert(entries_map(t) == entries_map(s.drop_last()).insert(p.0@, p.1@));
        assert(entries_map(s) == entries_map(s.drop_last()).insert(s[i].0@, s[i].1@));
        assert(entries_map(s).insert(p.0@, p.1@) =~= entries_map(s.drop_last()).insert(
            p.0@,
            p.1@,
        ));
    } else {
        assert(t.drop_last() =~= s.drop_last().update(i, p));
        assert(t.last() == s.last());
        assert(entries_unique(s.drop_last()));
        assert(s.drop_last()[i] == s[i]);
        lemma_entries_map_update(s.drop_last(), i, p);
        assert(entries_map(t) == entries_map(s.drop_last().update(i, p)).insert(
            s.last().0@,
            s.last().1@,
        ));
        assert(s.last().0@ != p.0@);
    }
}

/// Removing the entry that holds a key removes that key from the map.
pub proof fn lemma_entries_map_remove(s: Seq<CacheEntry>, i: int)
    requires
        entries_unique(s),
        0 <= i < s.len(),
    ensures
        entries_map(s.remove(i)) =~= entries_map(s).remove(s[i].0@),
        entries_unique(s.remove(i)),
    decreases s.len(),
{
    let t = s.remove(i);
    assert forall|a: int, b: int| 0 <= a < b < t.len() implies (#[trigger] t[a]).0@ != (
    #[trigger] t[b]).0@ by {
        let a0 = if a < i { a } else { a + 1 };
        let b0 = if b < i { b } else { b + 1 };
        assert(t[a] == s[a0]);
        assert(t[b] == s[b0]);
        assert(s[a0].0@ != s[b0].0@);
    }
    if i == s.len() - 1 {
        assert(t =~= s.drop_last());
        lemma_entries_map_not_contains(s.drop_last(), s[i].0@);
        assert(entries_map(s) == entries_map(s.drop_last()).insert(s[i].0@, s[i].1@));
    } else {
        assert(t.drop_last() =~= s.drop_last().remove(i));
        assert(t.last() == s.last());
        assert(entries_unique(s.drop_last()));
        assert(s.drop_last()[i] == s[i]);
        lemma_entries_map_remove(s.drop_last(), i);
        assert(entries_map(t) == entries_map(s.drop_last().remove(i)).insert(
            s.last().0@,
            s.last().1@,
        ));
        assert(s.last().0@ != s[i].0@);
    }
}

/// A key held by no entry is not in the map.
pub proof fn lemma_entries_map_not_contains(s: Seq<CacheEntry>, k: Seq<u8>)
    requires
        forall|i: int| 0 <= i < s.len() ==> (#[trigger] s[i]).0@ != k,
    ensures
        !entries_map(s).contains_key(k),
    decreases s.len(),
{
    if s.len() > 0 {
        assert(forall|i: int|
            0 <= i < s.drop_last().len() ==> (#[trigger] s.drop_last()[i]).0@ != k);
        lemma_entries_map_not_contains(s.drop_last(), k);
        assert(s[s.len() - 1].0@ != k);
    }
}

/// With unique keys, the vector and its map hold the same number of
/// entries.
pub proof fn lemma_entries_map_len(s: Seq<CacheEntry>)
    requires
        entries_unique(s),
    ensures
        entries_map(s).dom().finite(),
        entries_map(s).dom().len() == s.len(),
    decreases s.len(),
{
    if s.len() == 0 {
        assert(entries_map(s).dom() =~= Set::<Seq<u8>>::empty());
    } else {
        assert(entries_unique(s.drop_last()));
        lemma_entries_map_len(s.drop_last());
        assert(forall|i: int|
            0 <= i < s.drop_last().len() ==> (#[trigger] s.drop_last()[i]).0@ != s.last().0@);
        lemma_entries_map_not_contains(s.drop_last(), s.last().0@);
        assert(entries_map(s).dom() =~= entries_map(s.drop_last()).dom().insert(s.last().0@));
    }
}

/// Finds the entry holding `key`, if one does.
fn find_entry(entries: &Vec<CacheEntry>, key: &BigDecimalInt) -> (r: Option<usize>)
    requires
        entries_unique(entries@),
    ensures
        r matches Some(i) ==> i < entries@.len() && entries@[i as int].0@ == key@,
        r.is_none() ==> !entries_map(entries@).contains_key(key@),
        r.is_some() == entries_map(entries@).contains_key(key@),
{
    let n = entries.len();
    let mut i: usize = 0;
    while i < n
        invariant
            n == entries@.len(),
            i <= n,
            forall|j: int| 0 <= j < i ==> (#[trigger] entries@[j]).0@ != key@,
        decreases n - i,
    {
        if entries[i].0 == *key {
            proof {
                lemma_entries_map_dom(entries@, key@);
            }
            return Some(i);
        }
        i += 1;
    }
    proof {
        lemma_entries_map_not_contains(entries@, key@);
    }
    None
}

/// Inserts or overwrites the value for `key`, keeping keys unique.
fn put_entry(entries: &mut Vec<CacheEntry>, key: BigDecimalInt, val: ThreadInfo)
    requires
        entries_unique(old(entries)@),
    ensures
        entries_unique(final(entries)@),
        entries_map(final(entries)@) == entries_map(old(entries)@).insert(key@, val@),
        final(entries)@.len() <= old(entries)@.len() + 1,
        old(entries)@.len() <= final(entries)@.len(),
{
    match find_entry(entries, &key) {
        Some(i) => {
            proof {
                lemma_entries_map_update(entries@, i as int, (key, val));
            }
            entries.set(i, (key, val));
        },
        None => {
            proof {
                lemma_entries_map_push(entries@, (key, val));
                let s = entries@;
                let t = s.push((key, val));
                lemma_entries_map_dom(s, key@);
                assert forall|a: int, b: int| 0 <= a < b < t.len() implies (#[trigger] t[a]).0@
                    != (#[trigger] t[b]).0@ by {
                    if b < s.len() {
                        assert(s[a].0@ != s[b].0@);
                    } else {
                        assert(t[b].0@ == key@);
                        assert(s[a].0@ != key@);
                    }
                }
            }
            entries.push((key, val));
        },
    }
}

/// An immutable, cheaply shareable view of a cache's contents at a
/// snapshot boundary. Workers consult it on a miss of their own plane.
pub struct SharedCacheView {
    entries: std::sync::Arc<Vec<CacheEntry>>,
}

impl View for SharedCacheView {
    type V = Map<Seq<u8>, ThreadInfoV>;

    closed spec fn view(&self) -> Map<Seq<u8>, ThreadInfoV> {
        entries_map(self.entries@)
    }
}

impl SharedCacheView {
    /// The view's keys are pairwise distinct.
    pub closed spec fn wf(&self) -> bool {
        entries_unique(self.entries@)
    }

    /// A view of nothing.
    pub fn new_empty() -> (r: Self)
        ensures
            r.wf(),
            r@ == Map::<Seq<u8>, ThreadInfoV>::empty(),
    {
        let entries: Vec<CacheEntry> = Vec::new();
        proof {
            assert(entries@ =~= Seq::<CacheEntry>::empty());
        }
        SharedCacheView { entries: std::sync::Arc::new(entries) }
    }

    /// Another handle to the same view.
    pub fn duplicate(&self) -> (r: Self)
        ensures
            r@ == self@,
            r.wf() == self.wf(),
    {
        SharedCacheView { entries: std::sync::Arc::clone(&self.entries) }
    }
}

/// Two entry vectors whose pairs agree in view denote the same map.
pub proof fn lemma_entries_map_congruent(s: Seq<CacheEntry>, t: Seq<CacheEntry>)
    requires
        s.len() == t.len(),
        forall|i: int| 0 <= i < s.len() ==> (#[trigger] s[i]).0@ == (#[trigger] t[i]).0@
            && s[i].1@ == t[i].1@,
    ensures
        entries_map(s) =~= entries_map(t),
        entries_unique(s) == entries_unique(t),
    decreases s.len(),
{
    if s.len() > 0 {
        assert(forall|i: int|
            0 <= i < s.drop_last().len() ==> (#[trigger] s.drop_last()[i]).0@ == (
            #[trigger] t.drop_last()[i]).0@ && s.drop_last()[i].1@ == t.drop_last()[i].1@);
        lemma_entries_map_congruent(s.drop_last(), t.drop_last());
        assert(s.last().0@ == t.last().0@ && s.last().1@ == t.last().1@);
    }
    if entries_unique(s) {
        assert forall|a: int, b: int| 0 <= a < b < t.len() implies (#[trigger] t[a]).0@ != (
        #[trigger] t[b]).0@ by {
            assert(s[a].0@ != s[b].0@);
        }
    }
    if entries_unique(t) {
        assert forall|a: int, b: int| 0 <= a < b < s.len() implies (#[trigger] s[a]).0@ != (
        #[trigger] s[b]).0@ by {
            assert(t[a].0@ != t[b].0@);
        }
    }
}

/// The entry whose recorded iteration bound is lowest.
fn index_of_min_tested(entries: &Vec<CacheEntry>) -> (r: usize)
    requires
        entries@.len() > 0,
    ensures
        r < entries@.len(),
        forall|j: int| 0 <= j < entries@.len() ==> (#[trigger] entries@[j]).1@.max_iterations_tested
            >= entries@[r as int].1@.max_iterations_tested,
{
    let n = entries.len();
    let mut best: usize = 0;
    let mut i: usize = 1;
    while i < n
        invariant
            n == entries@.len(),
            best < i <= n || (best == 0 && i <= n),
            best < n,
            forall|j: int| 0 <= j < i ==> (#[trigger] entries@[j]).1@.max_iterations_tested
                >= entries@[best as int].1@.max_iterations_tested,
        decreases n - i,
    {
        if entries[i].1.max_iterations_tested < entries[best].1.max_iterations_tested {
            best = i;
        }
        i += 1;
    }
    best
}

/// Entries kept dominate entries dropped: every surviving value was
/// tested at least as far as every evicted one.
pub open spec fn eviction_dominates(
    orig: Map<Seq<u8>, ThreadInfoV>,
    cur: Map<Seq<u8>, ThreadInfoV>,
) -> bool {
    forall|k1: Seq<u8>, k2: Seq<u8>|
        cur.contains_key(k1) && orig.contains_key(k2) && !cur.contains_key(k2)
            ==> (#[trigger] cur[k1]).max_iterations_tested >= (
        #[trigger] orig[k2]).max_iterations_tested
}

/// `cur` holds a subset of `orig`'s entries, unchanged.
pub open spec fn submap_of(cur: Map<Seq<u8>, ThreadInfoV>, orig: Map<Seq<u8>, ThreadInfoV>) -> bool {
    forall|k: Seq<u8>| #[trigger] cur.contains_key(k) ==> orig.contains_key(k) && cur[k] == orig[k]
}

/// The union of two cache planes under the dominance rule: for a key in
/// both, the entry tested further wins; at a tie the receiver's stays.
pub open spec fn merge_maps(
    a: Map<Seq<u8>, ThreadInfoV>,
    b: Map<Seq<u8>, ThreadInfoV>,
) -> Map<Seq<u8>, ThreadInfoV> {
    Map::new(
        |k: Seq<u8>| a.contains_key(k) || b.contains_key(k),
        |k: Seq<u8>|
            if b.contains_key(k) && (!a.contains_key(k) || b[k].max_iterations_tested
                > a[k].max_iterations_tested) {
                b[k]
            } else {
                a[k]
            },
    )
}

/// A pairwise copy of an entry vector.
fn clone_entries(entries: &Vec<CacheEntry>) -> (r: Vec<CacheEntry>)
    ensures
        r@.len() == entries@.len(),
        forall|i: int| 0 <= i < r@.len() ==> (#[trigger] r@[i]).0@ == (#[trigger] entries@[i]).0@
            && r@[i].1@ == entries@[i].1@,
        entries_map(r@) == entries_map(entries@),
        entries_unique(r@) == entries_unique(entries@),
{
    let n = entries.len();
    let mut out: Vec<CacheEntry> = Vec::new();
    let mut i: usize = 0;
    while i < n
        invariant
            n == entries@.len(),
            i <= n,
            out@.len() == i,
            forall|j: int| 0 <= j < i ==> (#[trigger] out@[j]).0@ == (#[trigger] entries@[j]).0@
                && out@[j].1@ == entries@[j].1@,
        decreases n - i,
    {
        let k = entries[i].0.clone();
        let v = entries[i].1.clone();
        out.push((k, v));
        i += 1;
    }
    proof {
        lemma_entries_map_congruent(out@, entries@);
    }
    out
}

/// Saturating increment for a statistics counter.
pub open spec fn sat_inc(v: u64, d: nat) -> u64 {
    if v + d <= u64::MAX {
        (v + d) as u64
    } else {
        u64::MAX
    }
}

/// Orbits are admitted to the cache only from this many iterations up.
pub const CACHE_THRESHOLD: u32 = 50;

/// At most this many elements of an orbit's path are recorded.
pub const ADMISSION_PREFIX_LIMIT: usize = 100;

/// A memo from orbit elements to the terminal fate of the orbit through
/// them. Lookups consult the mutable local plane first, then the shared
/// immutable snapshot plane.
pub struct ThreadCache {
    known_values: Vec<CacheEntry>,
    snapshot: Option<SharedCacheView>,
    max_cache_size: usize,
    hits: u64,
    misses: u64,
}

/// Counters describing a cache's use so far.
pub struct CacheStats {
    pub entries: usize,
    pub hits: u64,
    pub misses: u64,
}

impl ThreadCache {
    /// The local plane as a map.
    pub closed spec fn local_map(&self) -> Map<Seq<u8>, ThreadInfoV> {
        entries_map(self.known_values@)
    }

    /// How many entries the local plane holds.
    pub closed spec fn local_count(&self) -> nat {
        self.known_values@.len()
    }

    /// The snapshot plane as a map; empty when no snapshot is held.
    pub closed spec fn snapshot_map(&self) -> Map<Seq<u8>, ThreadInfoV> {
        match self.snapshot {
            Some(v) => v@,
            None => Map::empty(),
        }
    }

    /// Whether a snapshot plane is held at all.
    pub closed spec fn has_snapshot(&self) -> bool {
        self.snapshot is Some
    }

    /// What a lookup of `k` would find: the local plane shadows the
    /// snapshot plane.
    pub open spec fn lookup_map(&self) -> Map<Seq<u8>, ThreadInfoV> {
        self.snapshot_map().union_prefer_right(self.local_map())
    }

    pub closed spec fn spec_hits(&self) -> u64 {
        self.hits
    }

    pub closed spec fn spec_misses(&self) -> u64 {
        self.misses
    }

    pub closed spec fn spec_max_size(&self) -> nat {
        self.max_cache_size as nat
    }

    /// Keys are unique within each plane.
    pub closed spec fn wf(&self) -> bool {
        entries_unique(self.known_values@) && (self.snapshot matches Some(v) ==> v.wf())
    }

    /// An empty cache bounded by `max_size`, with no snapshot plane.
    pub fn new(max_size: usize) -> (r: Self)
        ensures
            r.wf(),
            r.local_map() == Map::<Seq<u8>, ThreadInfoV>::empty(),
            r.local_count() == 0,
            !r.has_snapshot(),
            r.snapshot_map() == Map::<Seq<u8>, ThreadInfoV>::empty(),
            r.spec_hits() == 0,
            r.spec_misses() == 0,
            r.spec_max_size() == max_size,
    {
        let known_values: Vec<CacheEntry> = Vec::new();
        proof {
            assert(known_values@ =~= Seq::<CacheEntry>::empty());
        }
        ThreadCache { known_values, snapshot: None, max_cache_size: max_size, hits: 0, misses: 0 }
    }

    /// An empty cache, as `new`; the reducer's identity element.
    pub fn new_empty(max_size: usize) -> (r: Self)
        ensures
            r.wf(),
            r.local_map() == Map::<Seq<u8>, ThreadInfoV>::empty(),
            r.local_count() == 0,
            !r.has_snapshot(),
            r.snapshot_map() == Map::<Seq<u8>, ThreadInfoV>::empty(),
            r.spec_hits() == 0,
            r.spec_misses() == 0,
            r.spec_max_size() == max_size,
    {
        Self::new(max_size)
    }

    /// A worker's cache: an empty private plane over a shared snapshot.
    pub fn new_worker(snapshot: SharedCacheView, max_size: usize) -> (r: Self)
        requires
            snapshot.wf(),
        ensures
            r.wf(),
            r.local_map() == Map::<Seq<u8>, ThreadInfoV>::empty(),
            r.local_count() == 0,
            r.snapshot_map() == snapshot@,
            r.spec_hits() == 0,
            r.spec_misses() == 0,
            r.spec_max_size() == max_size,
    {
        let known_values: Vec<CacheEntry> = Vec::new();
        proof {
            assert(known_values@ =~= Seq::<CacheEntry>::empty());
        }
        ThreadCache {
            known_values,
            snapshot: Some(snapshot),
            max_cache_size: max_size,
            hits: 0,
            misses: 0,
        }
    }

    /// How many entries the local plane holds.
    pub fn len(&self) -> (r: usize)
        ensures
            r == self.local_count(),
    {
        self.known_values.len()
    }

    /// Whether the local plane is empty.
    pub fn is_empty(&self) -> (r: bool)
        ensures
            r == (self.local_count() == 0),
    {
        self.known_values.is_empty()
    }

    /// Whether an orbit of `iterations` steps is worth caching.
    pub fn should_cache(&self, iterations: u32) -> (r: bool)
        ensures
            r == (iterations >= CACHE_THRESHOLD),
    {
        iterations >= CACHE_THRESHOLD
    }

    /// Looks `value` up, local plane first, then snapshot. A hit from
    /// either plane counts on the hit counter, a miss on the miss
    /// counter; nothing else changes.
    pub fn check(&mut self, value: &BigDecimalInt) -> (r: Option<ThreadInfo>)
        requires
            old(self).wf(),
        ensures
            final(self).wf(),
            r.is_some() == old(self).lookup_map().contains_key(value@),
            r matches Some(info) ==> info@ == old(self).lookup_map()[value@],
            final(self).local_map() == old(self).local_map(),
            final(self).local_count() == old(self).local_count(),
            final(self).snapshot_map() == old(self).snapshot_map(),
            final(self).has_snapshot() == old(self).has_snapshot(),
            final(self).spec_max_size() == old(self).spec_max_size(),
            r.is_some() ==> final(self).spec_hits() == sat_inc(old(self).spec_hits(), 1)
                && final(self).spec_misses() == old(self).spec_misses(),
            r.is_none() ==> final(self).spec_misses() == sat_inc(old(self).spec_misses(), 1)
                && final(self).spec_hits() == old(self).spec_hits(),
    {
        if let Some(i) = find_entry(&self.known_values, value) {
            self.hits = self.hits.saturating_add(1);
            let info = self.known_values[i].1.clone();
            proof {
                lemma_entries_map_index(self.known_values@, i as int);
            }
            return Some(info);
        }
        if let Some(view) = &self.snapshot {
            if let Some(i) = find_entry(&view.entries, value) {
                self.hits = self.hits.saturating_add(1);
                let info = view.entries[i].1.clone();
                proof {
                    lemma_entries_map_index(view.entries@, i as int);
                }
                return Some(info);
            }
        }
        self.misses = self.misses.saturating_add(1);
        None
    }

    /// In a well-formed cache the local entry count is the size of the
    /// local map's domain, so a contract that pins the map pins the
    /// count.
    pub proof fn lemma_local_count_is_map_size(&self)
        requires
            self.wf(),
        ensures
            self.local_map().dom().finite(),
            self.local_map().dom().len() == self.local_count(),
    {
        lemma_entries_map_len(self.known_values@);
    }

    /// While the local plane is over its bound, drops the entry with the
    /// lowest recorded iteration count. The snapshot plane is never
    /// touched.
    pub fn evict_if_needed(&mut self)
        requires
            old(self).wf(),
        ensures
            final(self).wf(),
            final(self).snapshot_map() == old(self).snapshot_map(),
            final(self).has_snapshot() == old(self).has_snapshot(),
            final(self).spec_hits() == old(self).spec_hits(),
            final(self).spec_misses() == old(self).spec_misses(),
            final(self).spec_max_size() == old(self).spec_max_size(),
            final(self).local_count() == spec_min(
                old(self).local_count() as int,
                old(self).spec_max_size() as int,
            ),
            submap_of(final(self).local_map(), old(self).local_map()),
            eviction_dominates(old(self).local_map(), final(self).local_map()),
            old(self).local_count() <= old(self).spec_max_size() ==> final(self).local_map()
                == old(self).local_map(),
    {
        let ghost orig = self.local_map();
        while self.known_values.len() > self.max_cache_size
            invariant
                self.wf(),
                self.snapshot_map() == old(self).snapshot_map(),
                self.has_snapshot() == old(self).has_snapshot(),
                self.spec_hits() == old(self).spec_hits(),
                self.spec_misses() == old(self).spec_misses(),
                self.spec_max_size() == old(self).spec_max_size(),
                self.local_count() <= old(self).local_count(),
                old(self).local_count() <= old(self).spec_max_size() ==> self.local_count()
                    == old(self).local_count(),
                self.local_count() >= spec_min(
                    old(self).local_count() as int,
                    old(self).spec_max_size() as int,
                ),
                orig == old(self).local_map(),
                submap_of(self.local_map(), orig),
                eviction_dominates(orig, self.local_map()),
                old(self).local_count() <= old(self).spec_max_size() ==> self.local_map() == orig,
            decreases self.local_count(),
        {
            let mi = index_of_min_tested(&self.known_values);
            proof {
                let s = self.known_values@;
                let km = s[mi as int].0@;
                lemma_entries_map_index(s, mi as int);
                lemma_entries_map_remove(s, mi as int);
                let cur = entries_map(s);
                let next = cur.remove(km);
                assert forall|k1: Seq<u8>, k2: Seq<u8>|
                    next.contains_key(k1) && orig.contains_key(k2) && !next.contains_key(k2)
                        implies (#[trigger] next[k1]).max_iterations_tested >= (
                    #[trigger] orig[k2]).max_iterations_tested by {
                    if cur.contains_key(k2) {
                        assert(k2 == km);
                        lemma_entries_map_dom(s, k1);
                        let i1 = choose|i: int| 0 <= i < s.len() && (#[trigger] s[i]).0@ == k1;
                        lemma_entries_map_index(s, i1);
                        assert(cur[k1].max_iterations_tested
                            >= s[mi as int].1@.max_iterations_tested);
                        assert(orig[km] == cur[km]);
                    } else {
                        assert(cur.contains_key(k1));
                    }
                }
            }
            self.known_values.remove(mi);
        }
    }

    /// Records one explored orbit: for each of the first
    /// `ADMISSION_PREFIX_LIMIT` elements of `path`, an entry whose
    /// `iterations_from_seed` grows with its position. Runs eviction
    /// afterwards; when everything fits under the bound, the local plane
    /// becomes exactly the written map.
    pub fn add_thread(&mut self, path: &Vec<BigDecimalInt>, info: ThreadInfo)
        requires
            old(self).wf(),
            info.iterations_from_seed + ADMISSION_PREFIX_LIMIT <= u32::MAX,
        ensures
            final(self).wf(),
            final(self).snapshot_map() == old(self).snapshot_map(),
            final(self).has_snapshot() == old(self).has_snapshot(),
            final(self).spec_hits() == old(self).spec_hits(),
            final(self).spec_misses() == old(self).spec_misses(),
            final(self).spec_max_size() == old(self).spec_max_size(),
            submap_of(
                final(self).local_map(),
                thread_entries(
                    old(self).local_map(),
                    path@,
                    info@,
                    spec_min(ADMISSION_PREFIX_LIMIT as int, path@.len() as int),
                ),
            ),
            old(self).local_count() + spec_min(ADMISSION_PREFIX_LIMIT as int, path@.len() as int)
                <= old(self).spec_max_size() ==> final(self).local_map() == thread_entries(
                old(self).local_map(),
                path@,
                info@,
                spec_min(ADMISSION_PREFIX_LIMIT as int, path@.len() as int),
            ),
            final(self).local_count() <= old(self).spec_max_size() || final(self).local_count()
                <= old(self).local_count() + spec_min(
                ADMISSION_PREFIX_LIMIT as int,
                path@.len() as int,
            ),
            final(self).local_count() <= old(self).local_count() + spec_min(
                ADMISSION_PREFIX_LIMIT as int,
                path@.len() as int,
            ),
            final(self).local_count() >= spec_min(
                old(self).local_count() as int,
                old(self).spec_max_size() as int,
            ),
    {
        let ghost m0 = self.local_map();
        let limit = if path.len() < ADMISSION_PREFIX_LIMIT {
            path.len()
        } else {
            ADMISSION_PREFIX_LIMIT
        };
        let mut idx: usize = 0;
        while idx < limit
            invariant
                limit == spec_min(ADMISSION_PREFIX_LIMIT as int, path@.len() as int),
                idx <= limit,
                info.iterations_from_seed + ADMISSION_PREFIX_LIMIT <= u32::MAX,
                self.wf(),
                self.snapshot_map() == old(self).snapshot_map(),
                self.has_snapshot() == old(self).has_snapshot(),
                self.spec_hits() == old(self).spec_hits(),
                self.spec_misses() == old(self).spec_misses(),
                self.spec_max_size() == old(self).spec_max_size(),
                m0 == old(self).local_map(),
                self.local_map() == thread_entries(m0, path@, info@, idx as int),
                old(self).local_count() <= self.local_count(),
                self.local_count() <= old(self).local_count() + idx,
            decreases limit - idx,
        {
            let entry_info = ThreadInfo {
                seed_number: info.seed_number.clone(),
                iterations_from_seed: info.iterations_from_seed + idx as u32,
                max_iterations_tested: info.max_iterations_tested,
                final_digits: info.final_digits,
                reached_palindrome: info.reached_palindrome,
                palindrome_at_iteration: info.palindrome_at_iteration,
            };
            proof {
                assert(entry_info@ == with_offset(info@, idx as int));
            }
            put_entry(&mut self.known_values, path[idx].clone(), entry_info);
            idx += 1;
            proof {
                assert(thread_entries(m0, path@, info@, idx as int) == thread_entries(
                    m0,
                    path@,
                    info@,
                    idx - 1,
                ).insert(path@[idx - 1]@, with_offset(info@, idx - 1)));
            }
        }
        self.evict_if_needed();
    }

    /// Folds a worker's local plane into this one's under the dominance
    /// rule: for each key, the entry with the larger
    /// `max_iterations_tested` stays. Counters add; eviction runs after.
    pub fn merge(&mut self, other: ThreadCache)
        requires
            old(self).wf(),
            other.wf(),
        ensures
            final(self).wf(),
            final(self).snapshot_map() == old(self).snapshot_map(),
            final(self).has_snapshot() == old(self).has_snapshot(),
            final(self).spec_max_size() == old(self).spec_max_size(),
            final(self).spec_hits() == sat_inc(old(self).spec_hits(), other.spec_hits() as nat),
            final(self).spec_misses() == sat_inc(
                old(self).spec_misses(),
                other.spec_misses() as nat,
            ),
            submap_of(
                final(self).local_map(),
                merge_maps(old(self).local_map(), other.local_map()),
            ),
            old(self).local_count() + other.local_count() <= old(self).spec_max_size()
                ==> final(self).local_map() == merge_maps(
                old(self).local_map(),
                other.local_map(),
            ),
            final(self).local_count() <= old(self).spec_max_size() || final(self).local_count()
                <= old(self).local_count() + other.local_count(),
            final(self).local_count() <= old(self).local_count() + other.local_count(),
            final(self).local_count() >= spec_min(
                old(self).local_count() as int,
                old(self).spec_max_size() as int,
            ),
    {
        let ghost a0 = self.local_map();
        let ghost bseq = other.known_values@;
        self.hits = self.hits.saturating_add(other.hits);
        self.misses = self.misses.saturating_add(other.misses);
        let n = other.known_values.len();
        let mut i: usize = 0;
        proof {
            assert(bseq.take(0) =~= Seq::<CacheEntry>::empty());
            assert(merge_maps(a0, entries_map(bseq.take(0))) =~= a0);
        }
        while i < n
            invariant
                n == bseq.len(),
                i <= n,
                other.known_values@ == bseq,
                entries_unique(bseq),
                self.wf(),
                self.snapshot_map() == old(self).snapshot_map(),
                self.has_snapshot() == old(self).has_snapshot(),
                self.spec_max_size() == old(self).spec_max_size(),
                self.spec_hits() == sat_inc(old(self).spec_hits(), other.spec_hits() as nat),
                self.spec_misses() == sat_inc(old(self).spec_misses(), other.spec_misses() as nat),
                a0 == old(self).local_map(),
                self.local_map() == merge_maps(a0, entries_map(bseq.take(i as int))),
                old(self).local_count() <= self.local_count(),
                self.local_count() <= old(self).local_count() + i,
            decreases n - i,
        {
            let key_ref = &other.known_values[i].0;
            let val_ref = &other.known_values[i].1;
            let ghost mb = entries_map(bseq.take(i as int));
            let ghost mcur = self.local_map();
            proof {
                assert(bseq.take(i + 1) =~= bseq.take(i as int).push(bseq[i as int]));
                lemma_entries_map_push(bseq.take(i as int), bseq[i as int]);
                assert(forall|j: int|
                    0 <= j < i ==> (#[trigger] bseq.take(i as int)[j]).0@ != bseq[i as int].0@);
                lemma_entries_map_not_contains(bseq.take(i as int), bseq[i as int].0@);
            }
            let dominated = match find_entry(&self.known_values, key_ref) {
                Some(j) => {
                    proof {
                        lemma_entries_map_index(self.known_values@, j as int);
                    }
                    self.known_values[j].1.max_iterations_tested >= val_ref.max_iterations_tested
                },
                None => false,
            };
            if !dominated {
                put_entry(&mut self.known_values, key_ref.clone(), val_ref.clone());
            }
            proof {
                let k = bseq[i as int].0@;
                let v = bseq[i as int].1@;
                if dominated {
                    assert(self.local_map() =~= merge_maps(a0, mb.insert(k, v)));
                } else {
                    assert(self.local_map() =~= merge_maps(a0, mb.insert(k, v)));
                }
            }
            i += 1;
        }
        proof {
            assert(bseq.take(n as int) =~= bseq);
        }
        self.evict_if_needed();
    }

    /// Moves the local plane into a shared immutable view, which the
    /// cache itself keeps consulting as its snapshot plane, and hands a
    /// second handle to the view back.
    pub fn take_snapshot(&mut self) -> (r: SharedCacheView)
        requires
            old(self).wf(),
        ensures
            final(self).wf(),
            r.wf(),
            r@ == old(self).local_map(),
            final(self).local_map() == Map::<Seq<u8>, ThreadInfoV>::empty(),
            final(self).local_count() == 0,
            final(self).snapshot_map() == old(self).local_map(),
            final(self).has_snapshot(),
            final(self).spec_hits() == old(self).spec_hits(),
            final(self).spec_misses() == old(self).spec_misses(),
            final(self).spec_max_size() == old(self).spec_max_size(),
    {
        let mut vals: Vec<CacheEntry> = Vec::new();
        proof {
            assert(vals@ =~= Seq::<CacheEntry>::empty());
        }
        core::mem::swap(&mut self.known_values, &mut vals);
        let view = SharedCacheView { entries: std::sync::Arc::new(vals) };
        let dup = view.duplicate();
        self.snapshot = Some(view);
        dup
    }

    /// Replaces the local plane with the contents of a shared view and
    /// drops the snapshot plane.
    pub fn restore_snapshot(&mut self, snapshot: SharedCacheView)
        requires
            old(self).wf(),
            snapshot.wf(),
        ensures
            final(self).wf(),
            final(self).local_map() == snapshot@,
            final(self).snapshot_map() == Map::<Seq<u8>, ThreadInfoV>::empty(),
            !final(self).has_snapshot(),
            final(self).spec_hits() == old(self).spec_hits(),
            final(self).spec_misses() == old(self).spec_misses(),
            final(self).spec_max_size() == old(self).spec_max_size(),
    {
        let vals = clone_entries(&snapshot.entries);
        self.known_values = vals;
        self.snapshot = None;
    }

    /// The entries whose orbits were tested far enough to be worth
    /// sharing: exactly the local entries with `max_iterations_tested >=
    /// 200`, each key once.
    pub fn export_important(&self) -> (r: Vec<CacheEntry>)
        requires
            self.wf(),
        ensures
            entries_unique(r@),
            forall|i: int| 0 <= i < r@.len() ==> self.local_map().contains_key(
                (#[trigger] r@[i]).0@,
            ) && r@[i].1@ == self.local_map()[r@[i].0@] && r@[i].1@.max_iterations_tested >= 200,
            forall|k: Seq<u8>|
                self.local_map().contains_key(k) && (#[trigger] self.local_map()[
                    k
                ]).max_iterations_tested >= 200 ==> exists|i: int|
                    0 <= i < r@.len() && (#[trigger] r@[i]).0@ == k,
    {
        let n = self.known_values.len();
        let mut out: Vec<CacheEntry> = Vec::new();
        let mut i: usize = 0;
        while i < n
            invariant
                n == self.known_values@.len(),
                i <= n,
                self.wf(),
                entries_unique(out@),
                forall|j: int| 0 <= j < out@.len() ==> self.local_map().contains_key(
                    (#[trigger] out@[j]).0@,
                ) && out@[j].1@ == self.local_map()[out@[j].0@]
                    && out@[j].1@.max_iterations_tested >= 200,
                forall|t: int| 0 <= t < out@.len() ==> exists|j: int|
                    0 <= j < i && (#[trigger] out@[t]).0@ == (
                    #[trigger] self.known_values@[j]).0@,
                forall|j: int|
                    0 <= j < i && (#[trigger] self.known_values@[j]).1@.max_iterations_tested
                        >= 200 ==> exists|t: int|
                        0 <= t < out@.len() && (#[trigger] out@[t]).0@
                            == self.known_values@[j].0@,
            decreases n - i,
        {
            if self.known_values[i].1.max_iterations_tested >= 200 {
                proof {
                    lemma_entries_map_index(self.known_values@, i as int);
                }
                let ghost out_old = out@;
                let k = self.known_values[i].0.clone();
                let v = self.known_values[i].1.clone();
                out.push((k, v));
                proof {
                    let kv = self.known_values@;
                    assert forall|a: int, b: int| 0 <= a < b < out@.len() implies (
                    #[trigger] out@[a]).0@ != (#[trigger] out@[b]).0@ by {
                        if b == out@.len() - 1 {
                            let j = choose|j: int|
                                0 <= j < i && (#[trigger] out_old[a]).0@ == (
                                #[trigger] kv[j]).0@;
                            assert(kv[j].0@ != kv[i as int].0@);
                        } else {
                            assert(out_old[a].0@ != out_old[b].0@);
                        }
                    }
                    assert forall|t: int| 0 <= t < out@.len() implies exists|j: int|
                        0 <= j < i + 1 && (#[trigger] out@[t]).0@ == (#[trigger] kv[j]).0@ by {
                        if t < out_old.len() {
                            let j = choose|j: int|
                                0 <= j < i && (#[trigger] out_old[t]).0@ == (
                                #[trigger] kv[j]).0@;
                            assert(out@[t].0@ == kv[j].0@);
                        } else {
                            assert(out@[t].0@ == kv[i as int].0@);
                        }
                    }
                    assert forall|j: int|
                        0 <= j < i + 1 && (#[trigger] kv[j]).1@.max_iterations_tested >= 200
                            implies exists|t: int|
                            0 <= t < out@.len() && (#[trigger] out@[t]).0@ == kv[j].0@ by {
                        if j < i {
                            let t = choose|t: int|
                                0 <= t < out_old.len() && (#[trigger] out_old[t]).0@
                                    == kv[j].0@;
                            assert(out@[t].0@ == kv[j].0@);
                        } else {
                            assert(out@[out@.len() - 1].0@ == kv[i as int].0@);
                        }
                    }
                }
            }
            i += 1;
        }
        proof {
            assert forall|k: Seq<u8>|
                self.local_map().contains_key(k) && (#[trigger] self.local_map()[
                    k
                ]).max_iterations_tested >= 200 implies exists|t: int|
                    0 <= t < out@.len() && (#[trigger] out@[t]).0@ == k by {
                lemma_entries_map_dom(self.known_values@, k);
                let j = choose|j: int|
                    0 <= j < self.known_values@.len() && (#[trigger] self.known_values@[j]).0@
                        == k;
                lemma_entries_map_index(self.known_values@, j);
                assert(self.known_values@[j].1@.max_iterations_tested >= 200);
            }
        }
        out
    }

    /// All entries a saved cache file holds: the local plane and, under
    /// it, the snapshot plane.
    pub fn export_entries(&self) -> (r: Vec<CacheEntry>)
        requires
            self.wf(),
        ensures
            entries_unique(r@),
            entries_map(r@) == self.lookup_map(),
    {
        let mut out: Vec<CacheEntry> = match &self.snapshot {
            Some(view) => clone_entries(&view.entries),
            None => Vec::new(),
        };
        proof {
            if !self.has_snapshot() {
                assert(out@ =~= Seq::<CacheEntry>::empty());
            }
            assert(entries_map(out@) == self.snapshot_map());
        }
        let n = self.known_values.len();
        let mut i: usize = 0;
        proof {
            assert(self.known_values@.take(0) =~= Seq::<CacheEntry>::empty());
            assert(self.snapshot_map().union_prefer_right(
                entries_map(self.known_values@.take(0)),
            ) =~= self.snapshot_map());
        }
        while i < n
            invariant
                n == self.known_values@.len(),
                i <= n,
                self.wf(),
                entries_unique(out@),
                entries_map(out@) == self.snapshot_map().union_prefer_right(
                    entries_map(self.known_values@.take(i as int)),
                ),
            decreases n - i,
        {
            let k = self.known_values[i].0.clone();
            let v = self.known_values[i].1.clone();
            let ghost bseq = self.known_values@;
            proof {
                assert(bseq.take(i + 1) =~= bseq.take(i as int).push(bseq[i as int]));
                lemma_entries_map_push(bseq.take(i as int), bseq[i as int]);
            }
            put_entry(&mut out, k, v);
            proof {
                assert(entries_map(out@) =~= self.snapshot_map().union_prefer_right(
                    entries_map(bseq.take(i + 1)),
                ));
            }
            i += 1;
        }
        proof {
            assert(self.known_values@.take(n as int) =~= self.known_values@);
        }
        out
    }

    /// Rebuilds a cache from saved entries; later duplicates of a key
    /// overwrite earlier ones. Counters start at zero.
    pub fn from_entries(entries: &Vec<CacheEntry>, max_size: usize) -> (r: Self)
        ensures
            r.wf(),
            r.local_map() == entries_map(entries@),
            !r.has_snapshot(),
            r.snapshot_map() == Map::<Seq<u8>, ThreadInfoV>::empty(),
            r.spec_hits() == 0,
            r.spec_misses() == 0,
            r.spec_max_size() == max_size,
    {
        let n = entries.len();
        let mut vals: Vec<CacheEntry> = Vec::new();
        let mut i: usize = 0;
        proof {
            assert(vals@ =~= Seq::<CacheEntry>::empty());
            assert(entries@.take(0) =~= Seq::<CacheEntry>::empty());
            assert(entries_map(vals@) =~= entries_map(entries@.take(0)));
        }
        while i < n
            invariant
                n == entries@.len(),
                i <= n,
                entries_unique(vals@),
                entries_map(vals@) == entries_map(entries@.take(i as int)),
            decreases n - i,
        {
            let k = entries[i].0.clone();
            let v = entries[i].1.clone();
            proof {
                assert(entries@.take(i + 1) =~= entries@.take(i as int).push(
                    entries@[i as int],
                ));
                lemma_entries_map_push(entries@.take(i as int), entries@[i as int]);
            }
            put_entry(&mut vals, k, v);
            i += 1;
        }
        proof {
            assert(entries@.take(n as int) =~= entries@);
        }
        ThreadCache { known_values: vals, snapshot: None, max_cache_size: max_size, hits: 0, misses: 0 }
    }

    /// The counters and local-entry count.
    pub fn stats(&self) -> (r: CacheStats)
        ensures
            r.entries == self.local_count(),
            r.hits == self.spec_hits(),
            r.misses == self.spec_misses(),
    {
        CacheStats { entries: self.known_values.len(), hits: self.hits, misses: self.misses }
    }
}

/// Law: a path admitted by `add_thread` is found at once: the map the
/// call writes holds the path's first element, so a `check` of it
/// returns `Some`. (When eviction runs because the entries do not fit
/// under the cache bound, the entry may be dropped again; the law is
/// about the written map.)
pub proof fn lemma_added_path_found(
    m: Map<Seq<u8>, ThreadInfoV>,
    path: Seq<BigDecimalInt>,
    info: ThreadInfoV,
    limit: int,
)
    requires
        1 <= limit,
    ensures
        thread_entries(m, path, info, limit).contains_key(path[0]@),
    decreases limit,
{
    if limit > 1 {
        lemma_added_path_found(m, path, info, limit - 1);
    }
}

/// Law: after merging plane `b` into plane `a`, every key of `b` is
/// present, with at least the `max_iterations_tested` that `b` recorded
/// for it.
pub proof fn lemma_merge_dominates(
    a: Map<Seq<u8>, ThreadInfoV>,
    b: Map<Seq<u8>, ThreadInfoV>,
    k: Seq<u8>,
)
    requires
        b.contains_key(k),
    ensures
        merge_maps(a, b).contains_key(k),
        merge_maps(a, b)[k].max_iterations_tested >= b[k].max_iterations_tested,
{
}

/// Law: a cache rebuilt from exported entries answers lookups from the
/// same mapping as the cache the entries came from; only the counters
/// start afresh.
pub proof fn lemma_export_import_round_trip(
    source: &ThreadCache,
    rebuilt: &ThreadCache,
    entries: Seq<CacheEntry>,
)
    requires
        entries_map(entries) == source.lookup_map(),
        rebuilt.local_map() == entries_map(entries),
        rebuilt.snapshot_map() == Map::<Seq<u8>, ThreadInfoV>::empty(),
    ensures
        rebuilt.lookup_map() == source.lookup_map(),
{
    assert(rebuilt.lookup_map() =~= source.lookup_map());
}

} // verus!
