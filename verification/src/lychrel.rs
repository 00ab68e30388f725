//! The reverse-add engine: iterate `n <- n + reverse(n)` until the value is
//! a decimal palindrome or an iteration bound is reached.

use vstd::prelude::*;
use crate::digits::BigDecimalInt;
use crate::thread_cache::ThreadCache;
use crate::thread_cache::ThreadInfo;
use crate::thread_cache::ThreadInfoV;
use crate::thread_cache::with_offset;
use crate::thread_cache::thread_entries;
use crate::thread_cache::submap_of;
use crate::thread_cache::sat_inc;
use crate::thread_cache::CACHE_THRESHOLD;
use crate::thread_cache::ADMISSION_PREFIX_LIMIT;
use crate::digits::spec_min;
use crate::digits::lemma_digits_of_seq_value;
use crate::digits::pal_nat;
use crate::digits::rev_nat;
use crate::digits::spec_reverse;
use crate::digits::digits_of;
use crate::digits::seq_value;
use crate::digits::trim;
use crate::digits::canonical;
use crate::digits::lemma_digits_of_canonical;
use crate::digits::lemma_digits_of_value;
use crate::digits::lemma_trim_value;

verus! {

/// One reverse-add step on a number.
pub open spec fn ra_step(v: nat) -> nat {
    (v + rev_nat(v)) as nat
}

/// The `k`-th element of the reverse-add orbit of `v`; `orbit(v, 0) == v`.
pub open spec fn orbit(v: nat, k: nat) -> nat
    decreases k,
{
    if k == 0 {
        v
    } else {
        ra_step(orbit(v, (k - 1) as nat))
    }
}

/// The reversal of a positive number is positive: its leading decimal
/// digit is not zero, and that digit becomes the ones digit of the
/// reversal.
pub proof fn lemma_rev_positive(v: nat)
    requires
        v > 0,
    ensures
        rev_nat(v) >= 1,
{
    let s = digits_of(v);
    lemma_digits_of_canonical(v);
    lemma_digits_of_value(v);
    if s.len() == 0 {
        assert(seq_value(s) == 0);
    }
    assert(s.len() > 0);
    let b = s.reverse();
    assert(b[0] == s[s.len() - 1]);
    assert(s[s.len() - 1] != 0);
    assert(seq_value(b) == b[0] + 10 * seq_value(b.drop_first()));
    lemma_trim_value(b);
    assert(rev_nat(v) == seq_value(trim(b)));
}

/// One reverse-add step fixes a number exactly when the number is zero;
/// every other value, palindrome or not, strictly grows.
pub proof fn lemma_step_fixed_point_only_zero(v: nat)
    ensures
        (ra_step(v) == v) <==> (v == 0),
        (ra_step(v) == v) <==> (rev_nat(v) == 0),
{
    if v == 0 {
        assert(digits_of(0) =~= Seq::<u8>::empty());
        assert(digits_of(0).reverse() =~= Seq::<u8>::empty());
        assert(trim(Seq::<u8>::empty()) =~= Seq::<u8>::empty());
        assert(rev_nat(0) == seq_value(Seq::<u8>::empty()));
        assert(rev_nat(0) == 0);
    } else {
        lemma_rev_positive(v);
    }
}


/// Law: from a positive start the orbit strictly grows, so an orbit path
/// never repeats an element and each admitted path entry keeps its own
/// recorded offset.
pub proof fn lemma_orbit_strictly_increasing(v: nat, a: nat, b: nat)
    requires
        v > 0,
        a < b,
    ensures
        orbit(v, a) < orbit(v, b),
    decreases b,
{
    lemma_orbit_positive(v, (b - 1) as nat);
    lemma_rev_positive(orbit(v, (b - 1) as nat));
    assert(orbit(v, b) == ra_step(orbit(v, (b - 1) as nat)));
    if a < b - 1 {
        lemma_orbit_strictly_increasing(v, a, (b - 1) as nat);
    }
}

/// A positive start keeps the whole orbit positive.
proof fn lemma_orbit_positive(v: nat, k: nat)
    requires
        v > 0,
    ensures
        orbit(v, k) > 0,
    decreases k,
{
    if k > 0 {
        lemma_orbit_positive(v, (k - 1) as nat);
    }
}

/// The outcome of one orbit evaluation. `final_number` is absent when the
/// verdict came from a cache hit rather than from reaching the terminus.
pub struct IterationResult {
    pub start_number: BigDecimalInt,
    pub is_palindrome: bool,
    pub iterations: u32,
    pub final_number: Option<BigDecimalInt>,
    pub is_potential_lychrel: bool,
}

/// The number with `n`'s decimal digits reversed; `reverse_number(10) == 1`.
pub fn reverse_number(n: &BigDecimalInt) -> (r: BigDecimalInt)
    requires
        n.wf(),
    ensures
        r.wf(),
        r@ == spec_reverse(n@),
        r.value() == rev_nat(n.value()),
{
    n.reverse_digits()
}

/// Whether `n` reads the same forwards and backwards in decimal; holds
/// exactly when `reverse_number(n)` equals `n`.
pub fn is_palindrome(n: &BigDecimalInt) -> (r: bool)
    requires
        n.wf(),
    ensures
        r == (n@ == spec_reverse(n@)),
        r == pal_nat(n.value()),
{
    n.is_palindrome_digits()
}

/// Runs the reverse-add orbit of `start` for at most `max_iterations`
/// steps. Reports the first palindrome reached, or the value after
/// `max_iterations` steps with a potential-Lychrel verdict.
pub fn lychrel_iteration(start: BigDecimalInt, max_iterations: u32) -> (r: IterationResult)
    requires
        start.wf(),
    ensures
        r.start_number == start,
        r.is_potential_lychrel == !r.is_palindrome,
        r.is_palindrome == exists|j: nat|
            j <= max_iterations && pal_nat(orbit(start.value(), j)),
        r.is_palindrome ==> r.iterations <= max_iterations,
        r.is_palindrome ==> pal_nat(orbit(start.value(), r.iterations as nat)),
        forall|j: nat| j < r.iterations ==> !pal_nat(orbit(start.value(), j)),
        !r.is_palindrome ==> r.iterations == max_iterations,
        r.final_number matches Some(f) && f.wf() && f.value() == orbit(
            start.value(),
            r.iterations as nat,
        ),
{
    let ghost v0 = start.value();
    let mut current = start.clone();
    let mut iteration_count: u32 = 0;

    proof {
        assert(orbit(v0, 0) == v0);
    }
    if current.is_palindrome_digits() {
        proof {
            assert(pal_nat(orbit(v0, 0)));
        }
        return IterationResult {
            start_number: start,
            is_palindrome: true,
            iterations: 0,
            final_number: Some(current),
            is_potential_lychrel: false,
        };
    }

    while iteration_count < max_iterations
        invariant
            start.wf(),
            v0 == start.value(),
            current.wf(),
            iteration_count <= max_iterations,
            current.value() == orbit(v0, iteration_count as nat),
            forall|j: nat| j <= iteration_count ==> !pal_nat(orbit(v0, j)),
        decreases max_iterations - iteration_count,
    {
        let reversed = current.reverse_digits();
        current = current.add_to(&reversed);
        iteration_count += 1;
        proof {
            assert(orbit(v0, iteration_count as nat) == ra_step(
                orbit(v0, (iteration_count - 1) as nat),
            ));
            assert(current.value() == orbit(v0, iteration_count as nat));
        }

        if current.is_palindrome_digits() {
            proof {
                assert(pal_nat(orbit(v0, iteration_count as nat)));
            }
            return IterationResult {
                start_number: start,
                is_palindrome: true,
                iterations: iteration_count,
                final_number: Some(current),
                is_potential_lychrel: false,
            };
        }
    }

    IterationResult {
        start_number: start,
        is_palindrome: false,
        iterations: iteration_count,
        final_number: Some(current),
        is_potential_lychrel: true,
    }
}

/// Saturating addition of iteration counters.
pub open spec fn sat_add_u32(a: u32, b: u32) -> u32 {
    if a + b <= u32::MAX {
        (a + b) as u32
    } else {
        u32::MAX
    }
}

/// The cache plane `m` knows the number `w`.
pub open spec fn knows(m: Map<Seq<u8>, ThreadInfoV>, w: nat) -> bool {
    m.contains_key(crate::digits::digits_of(w))
}

/// What the cache records for `w`.
pub open spec fn cached_info(m: Map<Seq<u8>, ThreadInfoV>, w: nat) -> ThreadInfoV {
    m[crate::digits::digits_of(w)]
}

/// How many further steps a cached fate stands for: the recorded
/// palindrome distance when one is recorded, else the bound tested to.
pub open spec fn cache_delta(t: ThreadInfoV) -> u32 {
    if t.reached_palindrome && t.palindrome_at_iteration is Some {
        t.palindrome_at_iteration->0
    } else {
        t.max_iterations_tested
    }
}

/// No palindrome appears in the orbit of `v` at positions `lo..=hi`.
pub open spec fn no_pal_through(v: nat, lo: nat, hi: int) -> bool {
    forall|j: nat| lo <= j <= hi ==> !pal_nat(#[trigger] orbit(v, j))
}

/// None of the first `i` orbit elements is known to `m`.
pub open spec fn no_hit_before(v: nat, m: Map<Seq<u8>, ThreadInfoV>, i: int) -> bool {
    forall|i2: nat| i2 < i ==> !knows(m, #[trigger] orbit(v, i2))
}

/// A cache-consulting run of `v` bounded by `max` against mapping `m`
/// ends on the cache hit at position `i`: the start is no palindrome, no
/// earlier orbit element is known, and no palindrome appears up to `i`.
pub open spec fn hit_at(v: nat, max: u32, m: Map<Seq<u8>, ThreadInfoV>, i: u32) -> bool {
    &&& !pal_nat(v)
    &&& i < max
    &&& knows(m, orbit(v, i as nat))
    &&& no_hit_before(v, m, i as int)
    &&& no_pal_through(v, 1, i as int)
}

/// The run ends on the palindrome first reached, at position `j`, before
/// any cache hit.
pub open spec fn pal_stop_at(v: nat, max: u32, m: Map<Seq<u8>, ThreadInfoV>, j: u32) -> bool {
    &&& !pal_nat(v)
    &&& 1 <= j <= max
    &&& pal_nat(orbit(v, j as nat))
    &&& no_pal_through(v, 1, j - 1)
    &&& no_hit_before(v, m, j as int)
}

/// The run exhausts its bound: no palindrome and no cache hit.
pub open spec fn exhausted(v: nat, max: u32, m: Map<Seq<u8>, ThreadInfoV>) -> bool {
    &&& !pal_nat(v)
    &&& no_pal_through(v, 0, max as int)
    &&& no_hit_before(v, m, max as int)
}

/// The number of decimal digits of `v`; zero counts one.
pub open spec fn digit_count_of(v: nat) -> nat {
    if crate::digits::digits_of(v).len() == 0 {
        1
    } else {
        crate::digits::digits_of(v).len()
    }
}


/// Where a cache-consulting run ends: a memo hit at an orbit position,
/// the first palindrome (position 0 for an already-palindromic start),
/// or the iteration bound.
pub enum RunOutcome {
    Hit(u32),
    Pal(u32),
    Exhausted,
}

/// The first stop of a cache-consulting run walking from position `i`:
/// the memo is consulted before each step, the new value tested after it.
pub open spec fn run_stop(v: nat, max: u32, m: Map<Seq<u8>, ThreadInfoV>, i: u32) -> RunOutcome
    decreases max - i,
{
    if i >= max {
        RunOutcome::Exhausted
    } else if knows(m, orbit(v, i as nat)) {
        RunOutcome::Hit(i)
    } else if pal_nat(orbit(v, (i + 1) as nat)) {
        RunOutcome::Pal((i + 1) as u32)
    } else {
        run_stop(v, max, m, (i + 1) as u32)
    }
}

/// Where the whole run of `v` against mapping `m` ends: the run's result
/// is a function of these three alone.
pub open spec fn run_outcome(v: nat, max: u32, m: Map<Seq<u8>, ThreadInfoV>) -> RunOutcome {
    if pal_nat(v) {
        RunOutcome::Pal(0)
    } else {
        run_stop(v, max, m, 0)
    }
}

proof fn lemma_run_stop_cases(v: nat, max: u32, m: Map<Seq<u8>, ThreadInfoV>, i: u32)
    requires
        i <= max,
        !pal_nat(v),
        no_pal_through(v, 1, i as int),
        no_hit_before(v, m, i as int),
    ensures
        run_stop(v, max, m, i) matches RunOutcome::Hit(i2) ==> hit_at(v, max, m, i2),
        run_stop(v, max, m, i) matches RunOutcome::Pal(j) ==> pal_stop_at(v, max, m, j),
        run_stop(v, max, m, i) is Exhausted ==> exhausted(v, max, m),
    decreases max - i,
{
    if i >= max {
        assert(orbit(v, 0) == v);
        assert forall|j: nat| 0 <= j <= max implies !pal_nat(#[trigger] orbit(v, j)) by {
            if j == 0 {
            }
        }
    } else if knows(m, orbit(v, i as nat)) {
    } else if pal_nat(orbit(v, (i + 1) as nat)) {
        assert forall|i2: nat| i2 < i + 1 implies !knows(m, #[trigger] orbit(v, i2)) by {
            if i2 < i {
            }
        }
    } else {
        assert forall|j: nat| 1 <= j <= i + 1 implies !pal_nat(#[trigger] orbit(v, j)) by {
        }
        assert forall|i2: nat| i2 < i + 1 implies !knows(m, #[trigger] orbit(v, i2)) by {
        }
        lemma_run_stop_cases(v, max, m, (i + 1) as u32);
    }
}

/// Law: every cache-consulting run falls in exactly the case its outcome
/// names; together with the engine's case clauses this makes the
/// reported verdict a function of the start, the bound, and the mapping.
pub proof fn lemma_run_outcome_cases(v: nat, max: u32, m: Map<Seq<u8>, ThreadInfoV>)
    ensures
        run_outcome(v, max, m) matches RunOutcome::Pal(j) ==> (if j == 0 {
            pal_nat(v)
        } else {
            pal_stop_at(v, max, m, j)
        }),
        run_outcome(v, max, m) matches RunOutcome::Hit(i) ==> hit_at(v, max, m, i),
        run_outcome(v, max, m) is Exhausted ==> exhausted(v, max, m),
{
    if !pal_nat(v) {
        lemma_run_stop_cases(v, max, m, 0);
    }
}


proof fn lemma_run_stop_hits(v: nat, max: u32, m: Map<Seq<u8>, ThreadInfoV>, i: u32)
    requires
        i <= max,
        exists|i2: u32|
            i <= i2 < max && knows(m, orbit(v, i2 as nat)) && (forall|j: nat|
                i < j <= i2 ==> !pal_nat(#[trigger] orbit(v, j))),
    ensures
        run_stop(v, max, m, i) is Hit,
    decreases max - i,
{
    let i2 = choose|i2: u32|
        i <= i2 < max && knows(m, orbit(v, i2 as nat)) && (forall|j: nat|
            i < j <= i2 ==> !pal_nat(#[trigger] orbit(v, j)));
    if knows(m, orbit(v, i as nat)) {
    } else {
        assert(i2 > i);
        assert(!pal_nat(orbit(v, (i + 1) as nat)));
        assert(i + 1 <= i2 < max && knows(m, orbit(v, i2 as nat)) && (forall|j: nat|
            i + 1 < j <= i2 ==> !pal_nat(#[trigger] orbit(v, j))));
        lemma_run_stop_hits(v, max, m, (i + 1) as u32);
    }
}

/// Law: orbits that merge short-circuit. When the cache knows some orbit
/// element of `v` reached before the bound and before any palindrome,
/// the run's outcome is a hit, so the engine reports the cached fate and
/// counts one hit.
pub proof fn lemma_known_orbit_hits(v: nat, max: u32, m: Map<Seq<u8>, ThreadInfoV>)
    requires
        !pal_nat(v),
        exists|i2: u32|
            i2 < max && knows(m, orbit(v, i2 as nat)) && (forall|j: nat|
                1 <= j <= i2 ==> !pal_nat(#[trigger] orbit(v, j))),
    ensures
        run_outcome(v, max, m) is Hit,
{
    let i2 = choose|i2: u32|
        i2 < max && knows(m, orbit(v, i2 as nat)) && (forall|j: nat|
            1 <= j <= i2 ==> !pal_nat(#[trigger] orbit(v, j)));
    assert(0 <= i2 < max && knows(m, orbit(v, i2 as nat)) && (forall|j: nat|
        0 < j <= i2 ==> !pal_nat(#[trigger] orbit(v, j))));
    lemma_run_stop_hits(v, max, m, 0);
}

/// The fate record a run of `v` writes when it ends naturally after `j`
/// steps.
pub open spec fn run_info(v: nat, j: u32, reached: bool) -> ThreadInfoV {
    ThreadInfoV {
        seed: crate::digits::digits_of(v),
        iterations_from_seed: 0,
        max_iterations_tested: j,
        final_digits: digit_count_of(orbit(v, j as nat)) as usize,
        reached_palindrome: reached,
        palindrome_at_iteration: if reached {
            Some(j)
        } else {
            None
        },
    }
}

/// The map written for an orbit's path: entry `l` holds the `l+1`-st
/// orbit element, recorded as `l` steps past the seed.
pub open spec fn orbit_entries(
    m: Map<Seq<u8>, ThreadInfoV>,
    v: nat,
    info: ThreadInfoV,
    limit: int,
) -> Map<Seq<u8>, ThreadInfoV>
    decreases limit,
{
    if limit <= 0 {
        m
    } else {
        orbit_entries(m, v, info, limit - 1).insert(
            crate::digits::digits_of(orbit(v, limit as nat)),
            with_offset(info, limit - 1),
        )
    }
}

/// A path vector whose elements are the orbit writes the orbit's map.
proof fn lemma_thread_entries_are_orbit_entries(
    m: Map<Seq<u8>, ThreadInfoV>,
    path: Seq<BigDecimalInt>,
    v: nat,
    info: ThreadInfoV,
    limit: int,
)
    requires
        limit <= path.len(),
        forall|l: int| 0 <= l < limit ==> (#[trigger] path[l])@ == crate::digits::digits_of(
            orbit(v, (l + 1) as nat),
        ),
    ensures
        thread_entries(m, path, info, limit) == orbit_entries(m, v, info, limit),
    decreases limit,
{
    if limit > 0 {
        lemma_thread_entries_are_orbit_entries(m, path, v, info, limit - 1);
    }
}

/// As `lychrel_iteration`, but consulting `cache` before each arithmetic
/// step and recording long orbits into it. A hit reports the cached fate,
/// translated to the current position, and omits the final value; a
/// natural ending of at least `CACHE_THRESHOLD` steps is written into the
/// cache's local plane, one entry for each path element up to
/// `ADMISSION_PREFIX_LIMIT`.
pub fn lychrel_iteration_with_cache(
    start: BigDecimalInt,
    max_iterations: u32,
    cache: &mut ThreadCache,
) -> (r: IterationResult)
    requires
        start.wf(),
        old(cache).wf(),
    ensures
        final(cache).wf(),
        final(cache).snapshot_map() == old(cache).snapshot_map(),
        final(cache).has_snapshot() == old(cache).has_snapshot(),
        final(cache).spec_max_size() == old(cache).spec_max_size(),
        r.start_number == start,
        r.is_potential_lychrel == !r.is_palindrome,
        pal_nat(start.value()) ==> {
            &&& r.is_palindrome
            &&& r.iterations == 0
            &&& (r.final_number matches Some(f) && f@ == start@)
            &&& final(cache).local_map() == old(cache).local_map()
            &&& final(cache).local_count() == old(cache).local_count()
            &&& final(cache).spec_hits() == old(cache).spec_hits()
            &&& final(cache).spec_misses() == old(cache).spec_misses()
        },
        forall|i: u32| #![trigger hit_at(start.value(), max_iterations, old(cache).lookup_map(), i)]
            hit_at(start.value(), max_iterations, old(cache).lookup_map(), i) ==> {
            let t = cached_info(old(cache).lookup_map(), orbit(start.value(), i as nat));
            &&& r.is_palindrome == t.reached_palindrome
            &&& r.iterations == sat_add_u32(i, cache_delta(t))
            &&& r.final_number is None
            &&& final(cache).local_map() == old(cache).local_map()
            &&& final(cache).local_count() == old(cache).local_count()
            &&& final(cache).spec_hits() == sat_inc(old(cache).spec_hits(), 1)
            &&& final(cache).spec_misses() == sat_inc(old(cache).spec_misses(), i as nat)
        },
        forall|j: u32| #![trigger pal_stop_at(start.value(), max_iterations, old(cache).lookup_map(), j)]
            pal_stop_at(start.value(), max_iterations, old(cache).lookup_map(), j) ==> {
            &&& r.is_palindrome
            &&& r.iterations == j
            &&& (r.final_number matches Some(f) && f.wf() && f.value() == orbit(
                start.value(),
                j as nat,
            ))
            &&& final(cache).spec_hits() == old(cache).spec_hits()
            &&& final(cache).spec_misses() == sat_inc(old(cache).spec_misses(), j as nat)
            &&& (j < CACHE_THRESHOLD ==> final(cache).local_map() == old(cache).local_map()
                && final(cache).local_count() == old(cache).local_count())
            &&& (j >= CACHE_THRESHOLD ==> submap_of(
                final(cache).local_map(),
                orbit_entries(
                    old(cache).local_map(),
                    start.value(),
                    run_info(start.value(), j, true),
                    spec_min(ADMISSION_PREFIX_LIMIT as int, j as int),
                ),
            ))
            &&& (j >= CACHE_THRESHOLD && old(cache).local_count() + spec_min(
                ADMISSION_PREFIX_LIMIT as int,
                j as int,
            ) <= old(cache).spec_max_size() ==> final(cache).local_map() == orbit_entries(
                old(cache).local_map(),
                start.value(),
                run_info(start.value(), j, true),
                spec_min(ADMISSION_PREFIX_LIMIT as int, j as int),
            ))
        },
        ({
            let o = run_outcome(start.value(), max_iterations, old(cache).lookup_map());
            &&& (o matches RunOutcome::Pal(j) ==> r.is_palindrome && r.iterations == j)
            &&& (o matches RunOutcome::Hit(i) ==> {
                let t = cached_info(old(cache).lookup_map(), orbit(start.value(), i as nat));
                &&& r.is_palindrome == t.reached_palindrome
                &&& r.iterations == sat_add_u32(i, cache_delta(t))
                &&& r.final_number is None
            })
            &&& (o is Exhausted ==> !r.is_palindrome && r.iterations == max_iterations)
        }),
        exhausted(start.value(), max_iterations, old(cache).lookup_map()) ==> {
            &&& !r.is_palindrome
            &&& r.iterations == max_iterations
            &&& (r.final_number matches Some(f) && f.wf() && f.value() == orbit(
                start.value(),
                max_iterations as nat,
            ))
            &&& final(cache).spec_hits() == old(cache).spec_hits()
            &&& final(cache).spec_misses() == sat_inc(
                old(cache).spec_misses(),
                max_iterations as nat,
            )
            &&& (max_iterations < CACHE_THRESHOLD ==> final(cache).local_map() == old(
                cache,
            ).local_map() && final(cache).local_count() == old(cache).local_count())
            &&& (max_iterations >= CACHE_THRESHOLD ==> submap_of(
                final(cache).local_map(),
                orbit_entries(
                    old(cache).local_map(),
                    start.value(),
                    run_info(start.value(), max_iterations, false),
                    spec_min(ADMISSION_PREFIX_LIMIT as int, max_iterations as int),
                ),
            ))
            &&& (max_iterations >= CACHE_THRESHOLD && old(cache).local_count() + spec_min(
                ADMISSION_PREFIX_LIMIT as int,
                max_iterations as int,
            ) <= old(cache).spec_max_size() ==> final(cache).local_map() == orbit_entries(
                old(cache).local_map(),
                start.value(),
                run_info(start.value(), max_iterations, false),
                spec_min(ADMISSION_PREFIX_LIMIT as int, max_iterations as int),
            ))
        },
{
    let ghost v0 = start.value();
    let ghost lm = old(cache).lookup_map();
    let mut current = start.clone();
    let mut iteration_count: u32 = 0;
    let mut path: Vec<BigDecimalInt> = Vec::new();

    proof {
        assert(orbit(v0, 0) == v0);
    }
    if current.is_palindrome_digits() {
        proof {
            assert(run_outcome(v0, max_iterations, lm) == RunOutcome::Pal(0));
        }
        return IterationResult {
            start_number: start,
            is_palindrome: true,
            iterations: 0,
            final_number: Some(current),
            is_potential_lychrel: false,
        };
    }

    while iteration_count < max_iterations
        invariant
            start.wf(),
            v0 == start.value(),
            lm == old(cache).lookup_map(),
            !pal_nat(v0),
            current.wf(),
            iteration_count <= max_iterations,
            current.value() == orbit(v0, iteration_count as nat),
            no_pal_through(v0, 1, iteration_count as int),
            no_hit_before(v0, lm, iteration_count as int),
            path@.len() == iteration_count,
            forall|l: int| 0 <= l < path@.len() ==> (#[trigger] path@[l])@
                == crate::digits::digits_of(orbit(v0, (l + 1) as nat)) && path@[l].wf(),
            cache.wf(),
            cache.local_map() == old(cache).local_map(),
            cache.local_count() == old(cache).local_count(),
            cache.snapshot_map() == old(cache).snapshot_map(),
            cache.has_snapshot() == old(cache).has_snapshot(),
            cache.spec_max_size() == old(cache).spec_max_size(),
            cache.spec_hits() == old(cache).spec_hits(),
            cache.spec_misses() == sat_inc(old(cache).spec_misses(), iteration_count as nat),
        decreases max_iterations - iteration_count,
    {
        proof {
            lemma_digits_of_seq_value(current@);
        }
        if let Some(thread_info) = cache.check(&current) {
            let ghost i = iteration_count;
            proof {
                assert(knows(lm, orbit(v0, i as nat)));
                assert(hit_at(v0, max_iterations, lm, i));
                assert forall|i2: u32| hit_at(v0, max_iterations, lm, i2) implies i2 == i by {
                    if i2 < i {
                        assert(!knows(lm, orbit(v0, i2 as nat)));
                    }
                    if i2 > i {
                        assert(!knows(lm, orbit(v0, i as nat)));
                    }
                }
                assert(thread_info@ == cached_info(lm, orbit(v0, i as nat)));
                assert forall|j: u32| !pal_stop_at(v0, max_iterations, lm, j) by {
                    if 1 <= j <= iteration_count {
                        assert(!pal_nat(orbit(v0, j as nat)));
                    } else if j > iteration_count {
                        assert(knows(lm, orbit(v0, iteration_count as nat)));
                    }
                }
                assert(!exhausted(v0, max_iterations, lm));
                lemma_run_outcome_cases(v0, max_iterations, lm);
            }
            let total_iterations = if thread_info.reached_palindrome {
                match thread_info.palindrome_at_iteration {
                    Some(p) => iteration_count.saturating_add(p),
                    None => iteration_count.saturating_add(thread_info.max_iterations_tested),
                }
            } else {
                iteration_count.saturating_add(thread_info.max_iterations_tested)
            };
            return IterationResult {
                start_number: start,
                is_palindrome: thread_info.reached_palindrome,
                iterations: total_iterations,
                final_number: None,
                is_potential_lychrel: !thread_info.reached_palindrome,
            };
        }

        let reversed = current.reverse_digits();
        current = current.add_to(&reversed);
        iteration_count += 1;
        proof {
            assert(orbit(v0, iteration_count as nat) == ra_step(
                orbit(v0, (iteration_count - 1) as nat),
            ));
            assert(current.value() == orbit(v0, iteration_count as nat));
            lemma_digits_of_seq_value(current@);
        }
        path.push(current.clone());

        if current.is_palindrome_digits() {
            let ghost j = iteration_count;
            proof {
                assert(pal_stop_at(v0, max_iterations, lm, j));
                assert forall|j2: u32| pal_stop_at(v0, max_iterations, lm, j2) implies j2 == j by {
                    if 1 <= j2 < j {
                        assert(!pal_nat(orbit(v0, j2 as nat)));
                    }
                    if j2 > j {
                        assert(pal_nat(orbit(v0, j as nat)));
                    }
                }
                assert forall|i2: u32| !hit_at(v0, max_iterations, lm, i2) by {
                    if i2 < j {
                        assert(!knows(lm, orbit(v0, i2 as nat)));
                    } else {
                        assert(pal_nat(orbit(v0, j as nat)));
                    }
                }
                assert(!exhausted(v0, max_iterations, lm));
                lemma_run_outcome_cases(v0, max_iterations, lm);
            }
            if iteration_count >= CACHE_THRESHOLD {
                let info = build_run_info(&start, &current, iteration_count, true);
                proof {
                    lemma_digits_of_seq_value(start@);
                    lemma_digits_of_seq_value(current@);
                    assert(info@ == run_info(v0, j, true));
                }
                cache.add_thread(&path, info);
                proof {
                    lemma_thread_entries_are_orbit_entries(
                        old(cache).local_map(),
                        path@,
                        v0,
                        run_info(v0, j, true),
                        spec_min(ADMISSION_PREFIX_LIMIT as int, j as int),
                    );
                }
            }
            return IterationResult {
                start_number: start,
                is_palindrome: true,
                iterations: iteration_count,
                final_number: Some(current),
                is_potential_lychrel: false,
            };
        }
    }

    let ghost jmax = max_iterations;
    proof {
        assert(exhausted(v0, max_iterations, lm));
        assert forall|i2: u32| !hit_at(v0, max_iterations, lm, i2) by {
            if i2 < max_iterations {
                assert(!knows(lm, orbit(v0, i2 as nat)));
            }
        }
        assert forall|j2: u32| !pal_stop_at(v0, max_iterations, lm, j2) by {
            if 1 <= j2 <= max_iterations {
                assert(!pal_nat(orbit(v0, j2 as nat)));
            }
        }
        lemma_run_outcome_cases(v0, max_iterations, lm);
    }
    if iteration_count >= CACHE_THRESHOLD {
        let info = build_run_info(&start, &current, iteration_count, false);
        proof {
            lemma_digits_of_seq_value(start@);
            lemma_digits_of_seq_value(current@);
            assert(info@ == run_info(v0, jmax, false));
        }
        cache.add_thread(&path, info);
        proof {
            lemma_thread_entries_are_orbit_entries(
                old(cache).local_map(),
                path@,
                v0,
                run_info(v0, jmax, false),
                spec_min(ADMISSION_PREFIX_LIMIT as int, jmax as int),
            );
        }
    }
    IterationResult {
        start_number: start,
        is_palindrome: false,
        iterations: iteration_count,
        final_number: Some(current),
        is_potential_lychrel: true,
    }
}

/// The fate record for a naturally ended run: seed, bound tested, and
/// the final value's size.
fn build_run_info(start: &BigDecimalInt, final_value: &BigDecimalInt, iterations: u32, reached: bool) -> (r:
    ThreadInfo)
    requires
        start.wf(),
        final_value.wf(),
    ensures
        r@ == run_info_on(start@, final_value@, iterations, reached),
{
    ThreadInfo {
        seed_number: start.clone(),
        iterations_from_seed: 0,
        max_iterations_tested: iterations,
        final_digits: final_value.digit_count(),
        reached_palindrome: reached,
        palindrome_at_iteration: if reached {
            Some(iterations)
        } else {
            None
        },
    }
}

/// Law: run against an empty cache, `lychrel_iteration_with_cache` and
/// `lychrel_iteration` agree on whether a palindrome was reached and on
/// the iteration count. The `requires` restate the two functions'
/// contracts for results `plain` and `cached` of the same `start` value
/// and bound.
pub proof fn lemma_with_empty_cache_agrees(
    v: nat,
    max: u32,
    m: Map<Seq<u8>, ThreadInfoV>,
    plain: IterationResult,
    cached: IterationResult,
)
    requires
        m == Map::<Seq<u8>, ThreadInfoV>::empty(),
        plain.is_palindrome == exists|j: nat| j <= max && pal_nat(orbit(v, j)),
        plain.is_palindrome ==> plain.iterations <= max,
        plain.is_palindrome ==> pal_nat(orbit(v, plain.iterations as nat)),
        forall|j: nat| j < plain.iterations ==> !pal_nat(orbit(v, j)),
        !plain.is_palindrome ==> plain.iterations == max,
        pal_nat(v) ==> cached.is_palindrome && cached.iterations == 0,
        forall|j: u32| pal_stop_at(v, max, m, j) ==> cached.is_palindrome && cached.iterations
            == j,
        exhausted(v, max, m) ==> !cached.is_palindrome && cached.iterations == max,
    ensures
        plain.is_palindrome == cached.is_palindrome,
        plain.iterations == cached.iterations,
{
    assert forall|w: nat| !knows(m, w) by {
        assert(!m.contains_key(crate::digits::digits_of(w)));
    }
    if pal_nat(v) {
        assert(orbit(v, 0) == v);
        assert(plain.is_palindrome);
        if plain.iterations > 0 {
            assert(!pal_nat(orbit(v, 0)));
        }
        assert(plain.iterations == 0);
    } else {
        assert(orbit(v, 0) == v);
        if plain.is_palindrome {
            let j = plain.iterations;
            assert(j >= 1) by {
                if j == 0 {
                    assert(pal_nat(orbit(v, 0)));
                }
            }
            assert(pal_stop_at(v, max, m, j)) by {
                assert(no_hit_before(v, m, j as int));
                assert(no_pal_through(v, 1, j - 1));
            }
        } else {
            assert(exhausted(v, max, m)) by {
                assert(no_hit_before(v, m, max as int));
                assert forall|j: nat| 0 <= j <= max implies !pal_nat(#[trigger] orbit(v, j)) by {
                    if pal_nat(orbit(v, j)) {
                        assert(exists|j2: nat| j2 <= max && pal_nat(orbit(v, j2)));
                    }
                }
            }
        }
    }
}

/// The fate record written for a run, phrased over digit strings.
pub open spec fn run_info_on(seed: Seq<u8>, final_digits: Seq<u8>, j: u32, reached: bool) -> ThreadInfoV {
    ThreadInfoV {
        seed,
        iterations_from_seed: 0,
        max_iterations_tested: j,
        final_digits: (if final_digits.len() == 0 {
            1int
        } else {
            final_digits.len() as int
        }) as usize,
        reached_palindrome: reached,
        palindrome_at_iteration: if reached {
            Some(j)
        } else {
            None
        },
    }
}

} // verus!
