//! The record hunter: streams candidate seeds in batches, filters them,
//! runs each survivor through the cache-consulting engine, and collects
//! record palindromes together with running statistics.

use vstd::prelude::*;
use crate::digits::BigDecimalInt;
use crate::digits::pal_nat;
use crate::digits::pow10;
use crate::digits::spec_bit_length;
use crate::digits::spec_min;
use crate::digits::bit_length;
use crate::digits::lemma_digits_of_seq_value;
use crate::lychrel::lychrel_iteration;
use crate::lychrel::lychrel_iteration_with_cache;
use crate::lychrel::orbit;
use crate::lychrel::hit_at;
use crate::lychrel::pal_stop_at;
use crate::lychrel::exhausted;
use crate::lychrel::orbit_entries;
use crate::lychrel::run_info;
use crate::lychrel::lemma_run_outcome_cases;
use crate::lychrel::run_outcome;
use crate::lychrel::RunOutcome;
use crate::thread_cache::ADMISSION_PREFIX_LIMIT;
use crate::thread_cache::CACHE_THRESHOLD;
use crate::lychrel::cached_info;
use crate::lychrel::digit_count_of;
use crate::lychrel::cache_delta;
use crate::lychrel::sat_add_u32;
use crate::seed_generator::GeneratorMode;
use crate::seed_generator::SeedGenerator;
use crate::seed_generator::is_potential_seed;
use crate::thread_cache::SharedCacheView;
use crate::thread_cache::ThreadCache;
use crate::thread_cache::ThreadInfoV;
use crate::thread_cache::sat_inc;
use crate::clock::local_timestamp;

verus! {

/// How the quick filter probes a candidate: this many reverse-add steps.
pub const QUICK_FILTER_ITERATIONS: u32 = 50;

/// The growth the quick filter demands over its probe, in bits; about
/// twenty decimal digits.
pub const QUICK_FILTER_GROWTH_BITS: u64 = 66;

/// A promising candidate reached its palindrome after at least this many
/// iterations.
pub const PROMISING_ITERATIONS: u32 = 200;

/// How many raw candidates one batch pulls.
pub const BATCH_SIZE: usize = 500000;

/// The bound on each worker's private cache plane.
pub const WORKER_CACHE_SIZE: usize = 10000;

/// What a hunt does: the width range searched, the record window, and
/// cache and checkpoint parameters.
pub struct HuntConfig {
    pub min_digits: usize,
    pub max_digits: Option<usize>,
    pub target_iterations: u32,
    pub max_iterations: u32,
    pub target_final_digits: usize,
    pub cache_size: usize,
    pub generator_mode: GeneratorMode,
    pub checkpoint_interval: u64,
    pub checkpoint_file: String,
    pub warmup: bool,
}

/// Why a configuration is rejected before any work.
#[derive(Clone, Copy, PartialEq, Eq, Structural, Debug)]
pub enum ConfigError {
    /// The record window is empty: `max_iterations < target_iterations`.
    WindowEmpty,
    /// A width below one digit cannot be searched.
    MinDigitsZero,
    /// Warming up an unbounded cache of size zero does no work.
    CacheSizeZeroWithWarmup,
}

impl HuntConfig {
    /// The fields a hunter can be built from.
    pub open spec fn valid(&self) -> bool {
        &&& self.target_iterations <= self.max_iterations
        &&& 1 <= self.min_digits
        &&& (self.warmup ==> self.cache_size > 0)
    }

    /// Rejects a configuration exactly when one of its error conditions
    /// holds; the first that applies is reported.
    pub fn validate(&self) -> (r: Result<(), ConfigError>)
        ensures
            r is Ok <==> self.valid(),
            r == Result::<(), ConfigError>::Err(ConfigError::WindowEmpty) <==> self.max_iterations
                < self.target_iterations,
            r == Result::<(), ConfigError>::Err(ConfigError::MinDigitsZero) <==> (
            self.max_iterations >= self.target_iterations && self.min_digits < 1),
            r == Result::<(), ConfigError>::Err(ConfigError::CacheSizeZeroWithWarmup) <==> (
            self.max_iterations >= self.target_iterations && self.min_digits >= 1 && self.warmup
                && self.cache_size == 0),
    {
        if self.max_iterations < self.target_iterations {
            Err(ConfigError::WindowEmpty)
        } else if self.min_digits < 1 {
            Err(ConfigError::MinDigitsZero)
        } else if self.warmup && self.cache_size == 0 {
            Err(ConfigError::CacheSizeZeroWithWarmup)
        } else {
            Ok(())
        }
    }
}

impl Default for HuntConfig {
    /// The stock hunt: 23-digit seeds, a 289..=300
    /// record window, 142-digit palindromes, and a million-entry cache.
    fn default() -> (r: Self)
        ensures
            r.min_digits == 23,
            r.max_digits is None,
            r.target_iterations == 289,
            r.max_iterations == 300,
            r.target_final_digits == 142,
            r.cache_size == 1000000,
            r.generator_mode == GeneratorMode::Sequential,
            r.checkpoint_interval == 1000000,
            r.warmup == false,
            r.valid(),
    {
        HuntConfig {
            min_digits: 23,
            max_digits: None,
            target_iterations: 289,
            max_iterations: 300,
            target_final_digits: 142,
            cache_size: 1000000,
            generator_mode: GeneratorMode::Sequential,
            checkpoint_interval: 1000000,
            checkpoint_file: new_string_hunt_checkpoint(),
            warmup: false,
        }
    }
}

fn new_string_hunt_checkpoint() -> (r: String)
    ensures
        r@ == "hunt_checkpoint.json"@,
{
    "hunt_checkpoint.json".to_owned()
}

/// A candidate that met the record predicate, or came close enough to
/// keep.
pub struct RecordCandidate {
    pub number: BigDecimalInt,
    pub iterations: u32,
    pub final_digits: usize,
    pub found_at: String,
}

impl Clone for RecordCandidate {
    fn clone(&self) -> (r: Self)
        ensures
            r.number@ == self.number@,
            r.iterations == self.iterations,
            r.final_digits == self.final_digits,
    {
        RecordCandidate {
            number: self.number.clone(),
            iterations: self.iterations,
            final_digits: self.final_digits,
            found_at: self.found_at.clone(),
        }
    }
}

/// Running counters of a hunt.
pub struct HuntStatistics {
    pub numbers_tested: u64,
    pub seeds_tested: u64,
    pub cache_hits: u64,
    pub cache_misses: u64,
    pub best_iterations_found: u32,
    pub best_digits_found: usize,
    pub candidates_above_200: Vec<RecordCandidate>,
}

/// What a finished hunt reports.
pub struct HuntResults {
    pub numbers_tested: u64,
    pub seeds_tested: u64,
    pub records: Vec<RecordCandidate>,
    pub candidates_above_200: Vec<RecordCandidate>,
    pub best_iterations_found: u32,
}

/// The unique bit length of a number.
pub open spec fn bit_len_of(v: nat) -> nat {
    choose|r: nat| spec_bit_length(v, r)
}

/// Bit lengths are unique, so the measured length is the spec one.
pub proof fn lemma_bit_length_unique(v: nat, r: nat)
    requires
        spec_bit_length(v, r),
    ensures
        bit_len_of(v) == r,
{
    assert(exists|r2: nat| spec_bit_length(v, r2)) by {
        assert(spec_bit_length(v, r));
    }
    let r2 = bit_len_of(v);
    assert(spec_bit_length(v, r2));
    if v > 0 && r2 != r {
        if r2 < r {
            assert(vstd::arithmetic::power2::pow2(r2 as nat) <= vstd::arithmetic::power2::pow2(
                (r - 1) as nat,
            )) by {
                if r2 < r - 1 {
                    vstd::arithmetic::power2::lemma_pow2_strictly_increases(r2 as nat, (r - 1) as nat);
                }
            }
        } else {
            assert(vstd::arithmetic::power2::pow2(r as nat) <= vstd::arithmetic::power2::pow2(
                (r2 - 1) as nat,
            )) by {
                if r < r2 - 1 {
                    vstd::arithmetic::power2::lemma_pow2_strictly_increases(r as nat, (r2 - 1) as nat);
                }
            }
        }
    }
}

/// The quick filter rejects a candidate whose probe reaches a palindrome
/// or whose value grows too slowly over the probe.
pub open spec fn quick_reject(v: nat) -> bool {
    ||| exists|j: nat| j <= QUICK_FILTER_ITERATIONS && pal_nat(#[trigger] orbit(v, j))
    ||| bit_len_of(orbit(v, QUICK_FILTER_ITERATIONS as nat)) < bit_len_of(v)
        + QUICK_FILTER_GROWTH_BITS
}

/// One candidate's verdict, carried to the reducer.
pub struct ProcessResult {
    pub number: BigDecimalInt,
    pub iterations: u32,
    pub final_digits: usize,
    pub is_record: bool,
    pub is_promising: bool,
}

/// Runs one candidate: the quick filter first, then the full
/// cache-consulting run; classifies the outcome against the record
/// window.
fn process_candidate(
    candidate: &BigDecimalInt,
    cache: &mut ThreadCache,
    target_iterations: u32,
    max_iterations: u32,
    target_final_digits: usize,
) -> (r: Option<ProcessResult>)
    requires
        candidate.wf(),
        old(cache).wf(),
    ensures
        final(cache).wf(),
        final(cache).snapshot_map() == old(cache).snapshot_map(),
        final(cache).has_snapshot() == old(cache).has_snapshot(),
        final(cache).spec_max_size() == old(cache).spec_max_size(),
        r is None <==> quick_reject(candidate.value()),
        r is None ==> final(cache).local_map() == old(cache).local_map()
            && final(cache).spec_hits() == old(cache).spec_hits() && final(cache).spec_misses()
            == old(cache).spec_misses(),
        r matches Some(p) ==> {
            &&& p.number@ == candidate@
            &&& (p.is_record ==> target_iterations <= p.iterations <= max_iterations
                && p.final_digits >= target_final_digits)
            &&& (p.is_promising ==> p.iterations >= PROMISING_ITERATIONS)
        },
        forall|i: u32|
            hit_at(candidate.value(), max_iterations, old(cache).lookup_map(), i) && !quick_reject(
                candidate.value(),
            ) ==> {
                let t = cached_info(old(cache).lookup_map(), orbit(candidate.value(), i as nat));
                r matches Some(p) && p.iterations == sat_add_u32(i, cache_delta(t))
                    && p.final_digits == 0 && p.is_record == (t.reached_palindrome
                    && target_iterations <= p.iterations <= max_iterations && 0
                    >= target_final_digits) && p.is_promising == (t.reached_palindrome
                    && p.iterations >= PROMISING_ITERATIONS)
                    && final(cache).local_map() == old(cache).local_map()
                    && final(cache).local_count() == old(cache).local_count()
            },
        forall|j: u32|
            pal_stop_at(candidate.value(), max_iterations, old(cache).lookup_map(), j)
                && !quick_reject(candidate.value()) ==> (r matches Some(p) && p.iterations == j
                && p.final_digits == digit_count_of(orbit(candidate.value(), j as nat))
                && p.is_record == (target_iterations <= j <= max_iterations && p.final_digits
                >= target_final_digits) && p.is_promising == (j >= PROMISING_ITERATIONS) && (j
                < CACHE_THRESHOLD ==> final(cache).local_map() == old(cache).local_map()
                && final(cache).local_count() == old(cache).local_count()) && (j
                >= CACHE_THRESHOLD && old(cache).local_count() + spec_min(
                ADMISSION_PREFIX_LIMIT as int,
                j as int,
            ) <= old(cache).spec_max_size() ==> final(cache).local_map() == orbit_entries(
                old(cache).local_map(),
                candidate.value(),
                run_info(candidate.value(), j, true),
                spec_min(ADMISSION_PREFIX_LIMIT as int, j as int),
            ))),
        exhausted(candidate.value(), max_iterations, old(cache).lookup_map()) && !quick_reject(
            candidate.value(),
        ) ==> (r matches Some(p) && p.iterations == max_iterations && p.final_digits
            == digit_count_of(orbit(candidate.value(), max_iterations as nat)) && !p.is_record
            && p.is_promising == false && (max_iterations < CACHE_THRESHOLD
            ==> final(cache).local_map() == old(cache).local_map()
            && final(cache).local_count() == old(cache).local_count()) && (max_iterations
            >= CACHE_THRESHOLD && old(cache).local_count() + spec_min(
            ADMISSION_PREFIX_LIMIT as int,
            max_iterations as int,
        ) <= old(cache).spec_max_size() ==> final(cache).local_map() == orbit_entries(
            old(cache).local_map(),
            candidate.value(),
            run_info(candidate.value(), max_iterations, false),
            spec_min(ADMISSION_PREFIX_LIMIT as int, max_iterations as int),
        ))),
{
    let ghost v = candidate.value();
    let quick_result = lychrel_iteration(candidate.clone(), QUICK_FILTER_ITERATIONS);

    let start_bits = bit_length(candidate);
    let end_bits = match &quick_result.final_number {
        Some(f) => bit_length(f),
        None => 0,
    };
    proof {
        lemma_bit_length_unique(v, start_bits as nat);
        if !quick_result.is_palindrome {
            lemma_bit_length_unique(orbit(v, QUICK_FILTER_ITERATIONS as nat), end_bits as nat);
        }
    }

    if !(end_bits >= QUICK_FILTER_GROWTH_BITS && end_bits - QUICK_FILTER_GROWTH_BITS
        >= start_bits) {
        proof {
            if !quick_result.is_palindrome {
                assert(quick_reject(v));
            }
        }
        return None;
    }
    if quick_result.is_palindrome {
        return None;
    }
    proof {
        assert(!quick_reject(v));
    }

    let run_start = candidate.clone();
    proof {
        assert(run_start.value() == v);
    }
    let result = lychrel_iteration_with_cache(run_start, max_iterations, cache);
    proof {
        let lm = old(cache).lookup_map();
        assert forall|j: u32| pal_stop_at(v, max_iterations, lm, j) implies result.is_palindrome
            && result.iterations == j && (result.final_number matches Some(f) && f.wf()
            && f.value() == orbit(v, j as nat)) by {
            assert(pal_stop_at(run_start.value(), max_iterations, lm, j));
            assert(orbit(run_start.value(), j as nat) == orbit(v, j as nat));
            assert(sat_inc(old(cache).spec_misses(), j as nat) == sat_inc(
                old(cache).spec_misses(),
                j as nat,
            ));
        }
        assert forall|i: u32| hit_at(v, max_iterations, lm, i) implies result.iterations
            == sat_add_u32(i, cache_delta(cached_info(lm, orbit(v, i as nat))))
            && result.is_palindrome == cached_info(lm, orbit(v, i as nat)).reached_palindrome
            && result.final_number is None by {
            assert(hit_at(run_start.value(), max_iterations, lm, i));
            assert(cached_info(lm, orbit(run_start.value(), i as nat)) == cached_info(
                lm,
                orbit(v, i as nat),
            ));
        }
        if exhausted(v, max_iterations, lm) {
            assert(exhausted(run_start.value(), max_iterations, lm));
        }
    }

    let final_digits: usize = match &result.final_number {
        Some(f) => f.digit_count(),
        None => 0,
    };
    proof {
        let lm = old(cache).lookup_map();
        assert forall|j: u32| pal_stop_at(v, max_iterations, lm, j) implies final_digits
            == digit_count_of(orbit(v, j as nat)) by {
            if let Some(f) = result.final_number {
                lemma_digits_of_seq_value(f@);
            }
        }
        if exhausted(v, max_iterations, lm) {
            if let Some(f) = result.final_number {
                lemma_digits_of_seq_value(f@);
            }
        }
    }
    let is_record = result.is_palindrome && result.iterations >= target_iterations
        && result.iterations <= max_iterations && final_digits >= target_final_digits;
    let is_promising = result.is_palindrome && result.iterations >= PROMISING_ITERATIONS;

    Some(ProcessResult {
        number: candidate.clone(),
        iterations: result.iterations,
        final_digits,
        is_record,
        is_promising,
    })
}

/// Saturating 64-bit sum.
pub open spec fn sat64(v: int) -> u64 {
    if v >= u64::MAX {
        u64::MAX
    } else if v <= 0 {
        0u64
    } else {
        v as u64
    }
}

/// How many seeds a width is expected to offer: half its numbers (the
/// filter keeps about one of two), counted exactly up to 18 digits and
/// taken as unbounded beyond, where the count would overflow.
pub open spec fn width_seed_estimate(d: nat) -> u64 {
    if 1 <= d <= 18 {
        sat64(((pow10(d) - pow10((d - 1) as nat)) / 2) as int)
    } else {
        (u64::MAX / 2) as u64
    }
}

/// The estimates of the widths `lo..=hi`, summed saturating from the
/// bottom up.
pub open spec fn width_estimate_sum(lo: nat, hi: int) -> u64
    decreases hi + 1 - lo,
{
    if lo > hi {
        0u64
    } else {
        sat64(width_estimate_sum(lo, hi - 1) + width_seed_estimate(hi as nat))
    }
}

/// `pow10(e)` as a machine word; every value up to `10^19` fits.
fn pow10_u64(e: u32) -> (r: u64)
    requires
        e <= 19,
    ensures
        r == pow10(e as nat),
{
    proof {
        lemma_pow10_u64_fits();
    }
    let mut r: u64 = 1;
    let mut i: u32 = 0;
    while i < e
        invariant
            i <= e <= 19,
            r == pow10(i as nat),
            pow10(19) <= u64::MAX,
        decreases e - i,
    {
        proof {
            crate::digits::lemma_pow10_increases((i + 1) as nat, 19);
        }
        r = r * 10;
        i += 1;
    }
    r
}

/// The first twenty powers of ten, written out; the last still fits a
/// machine word.
proof fn lemma_pow10_u64_fits()
    ensures
        pow10(19) == 10000000000000000000,
{
    assert(pow10(0) == 1);
    assert(pow10(1) == 10);
    assert(pow10(2) == 100);
    assert(pow10(3) == 1000);
    assert(pow10(4) == 10000);
    assert(pow10(5) == 100000);
    assert(pow10(6) == 1000000);
    assert(pow10(7) == 10000000);
    assert(pow10(8) == 100000000);
    assert(pow10(9) == 1000000000);
    assert(pow10(10) == 10000000000);
    assert(pow10(11) == 100000000000);
    assert(pow10(12) == 1000000000000);
    assert(pow10(13) == 10000000000000);
    assert(pow10(14) == 100000000000000);
    assert(pow10(15) == 1000000000000000);
    assert(pow10(16) == 10000000000000000);
    assert(pow10(17) == 100000000000000000);
    assert(pow10(18) == 1000000000000000000);
    assert(pow10(19) == 10000000000000000000);
}

/// The seed estimate of one width, as a machine word.
fn width_estimate(d: usize) -> (r: u64)
    ensures
        r == width_seed_estimate(d as nat),
{
    if 1 <= d && d <= 18 {
        proof {
            lemma_pow10_u64_fits();
            crate::digits::lemma_pow10_increases(d as nat, 19);
            crate::digits::lemma_pow10_increases((d - 1) as nat, d as nat);
        }
        let p_hi = pow10_u64(d as u32);
        let p_lo = pow10_u64((d - 1) as u32);
        (p_hi - p_lo) / 2
    } else {
        u64::MAX / 2
    }
}

/// The saturating sum of the width estimates `lo..=hi`.
fn sum_width_estimates(lo: usize, hi: usize) -> (r: u64)
    requires
        hi < usize::MAX,
    ensures
        r == width_estimate_sum(lo as nat, hi as int),
{
    let mut acc: u64 = 0;
    let mut d: usize = lo;
    while d <= hi
        invariant
            lo <= d,
            d <= hi + 1 || d == lo,
            hi < usize::MAX,
            acc == width_estimate_sum(lo as nat, d - 1),
        decreases hi + 1 - d,
    {
        let wc = width_estimate(d);
        acc = acc.saturating_add(wc);
        d += 1;
    }
    acc
}

/// How many of the `k` consecutive values from `lo` on the seed filter
/// admits.
pub open spec fn admitted_count(lo: nat, k: nat) -> nat
    decreases k,
{
    if k == 0 {
        0
    } else {
        admitted_count(lo, (k - 1) as nat) + if crate::seed_generator::admitted_seed(
            (lo + k - 1) as nat,
        ) {
            1nat
        } else {
            0nat
        }
    }
}


/// How many numbers the widths `lo..=hi` hold: `pow10(d) - pow10(d-1)`
/// for each width `d`.
pub open spec fn widths_numbers(lo: nat, hi: int) -> nat
    decreases hi + 1 - lo,
{
    if lo > hi || lo < 1 {
        0
    } else {
        (widths_numbers(lo, hi - 1) + (pow10(hi as nat) - pow10((hi - 1) as nat))) as nat
    }
}

/// Saturating increments compose.
pub proof fn lemma_sat_inc_adds(v: u64, a: nat, b: nat)
    ensures
        sat_inc(sat_inc(v, a), b) == sat_inc(v, a + b),
{
}

/// How many of the first `k` candidates the seed filter admits.
pub open spec fn admitted_in(s: Seq<BigDecimalInt>, k: int) -> nat
    decreases k,
{
    if k <= 0 {
        0
    } else {
        admitted_in(s, k - 1) + if crate::seed_generator::admitted_seed(s[k - 1].value()) {
            1nat
        } else {
            0nat
        }
    }
}

/// No more candidates are admitted than looked at.
pub proof fn lemma_admitted_in_bound(s: Seq<BigDecimalInt>, k: int)
    requires
        0 <= k,
    ensures
        admitted_in(s, k) <= k,
    decreases k,
{
    if k > 0 {
        lemma_admitted_in_bound(s, k - 1);
    }
}

/// On consecutive values the two admission counts agree.
proof fn lemma_admitted_in_consecutive(s: Seq<BigDecimalInt>, lo: nat, k: int)
    requires
        0 <= k <= s.len(),
        forall|i: int| 0 <= i < k ==> (#[trigger] s[i]).value() == lo + i,
    ensures
        admitted_in(s, k) == admitted_count(lo, k as nat),
    decreases k,
{
    if k > 0 {
        lemma_admitted_in_consecutive(s, lo, k - 1);
    }
}


/// The value-level content of one finding: the seed, its iteration
/// count, and its final digit count (zero for a cache-terminated run).
pub ghost struct FoundV {
    pub seed: nat,
    pub iterations: u32,
    pub digits: nat,
}

/// The state a worker's pass folds forward: its local plane, the
/// findings, and whether every cache write so far fit under the bound.
/// Past the bound eviction thins the plane, and the fold no longer
/// pins it.
pub ghost struct WorkerFold {
    pub local: Map<Seq<u8>, ThreadInfoV>,
    pub records: Seq<FoundV>,
    pub promising: Seq<FoundV>,
    pub seeds: nat,
    pub best_iterations: u32,
    pub best_digits: nat,
    pub fits: bool,
}

/// One candidate's effect on a worker: the filter, the quick probe, and
/// the cache-consulting run, each decided by the specification alone.
pub open spec fn fold_candidate(
    st: WorkerFold,
    snapshot: Map<Seq<u8>, ThreadInfoV>,
    cap: nat,
    v: nat,
    target_iterations: u32,
    max_iterations: u32,
    target_final_digits: usize,
) -> WorkerFold {
    if !crate::seed_generator::admitted_seed(v) {
        st
    } else {
        let st1 = WorkerFold { seeds: st.seeds + 1, ..st };
        if quick_reject(v) {
            st1
        } else {
            let m = snapshot.union_prefer_right(st1.local);
            match run_outcome(v, max_iterations, m) {
                RunOutcome::Pal(j) => {
                    let digits = digit_count_of(orbit(v, j as nat));
                    let found = FoundV { seed: v, iterations: j, digits };
                    let written = if j >= CACHE_THRESHOLD {
                        orbit_entries(
                            st1.local,
                            v,
                            run_info(v, j, true),
                            spec_min(ADMISSION_PREFIX_LIMIT as int, j as int),
                        )
                    } else {
                        st1.local
                    };
                    WorkerFold {
                        local: written,
                        records: if target_iterations <= j <= max_iterations && digits
                            >= target_final_digits {
                            st1.records.push(found)
                        } else {
                            st1.records
                        },
                        promising: if j >= PROMISING_ITERATIONS {
                            st1.promising.push(found)
                        } else {
                            st1.promising
                        },
                        best_iterations: if j > st1.best_iterations {
                            j
                        } else {
                            st1.best_iterations
                        },
                        best_digits: if digits > st1.best_digits {
                            digits
                        } else {
                            st1.best_digits
                        },
                        fits: st1.fits && (j < CACHE_THRESHOLD || st1.local.dom().len()
                            + spec_min(ADMISSION_PREFIX_LIMIT as int, j as int) <= cap),
                        ..st1
                    }
                },
                RunOutcome::Hit(i) => {
                    let t = cached_info(m, orbit(v, i as nat));
                    let iters = sat_add_u32(i, cache_delta(t));
                    let found = FoundV { seed: v, iterations: iters, digits: 0 };
                    WorkerFold {
                        records: if t.reached_palindrome && target_iterations <= iters
                            <= max_iterations && 0 >= target_final_digits {
                            st1.records.push(found)
                        } else {
                            st1.records
                        },
                        promising: if t.reached_palindrome && iters >= PROMISING_ITERATIONS {
                            st1.promising.push(found)
                        } else {
                            st1.promising
                        },
                        best_iterations: if iters > st1.best_iterations {
                            iters
                        } else {
                            st1.best_iterations
                        },
                        ..st1
                    }
                },
                RunOutcome::Exhausted => {
                    let digits = digit_count_of(orbit(v, max_iterations as nat));
                    let written = if max_iterations >= CACHE_THRESHOLD {
                        orbit_entries(
                            st1.local,
                            v,
                            run_info(v, max_iterations, false),
                            spec_min(ADMISSION_PREFIX_LIMIT as int, max_iterations as int),
                        )
                    } else {
                        st1.local
                    };
                    WorkerFold {
                        local: written,
                        best_iterations: if max_iterations > st1.best_iterations {
                            max_iterations
                        } else {
                            st1.best_iterations
                        },
                        best_digits: if digits > st1.best_digits {
                            digits
                        } else {
                            st1.best_digits
                        },
                        fits: st1.fits && (max_iterations < CACHE_THRESHOLD
                            || st1.local.dom().len() + spec_min(
                            ADMISSION_PREFIX_LIMIT as int,
                            max_iterations as int,
                        ) <= cap),
                        ..st1
                    }
                },
            }
        }
    }
}

/// The fold of the first `k` candidates from state `st0`.
pub open spec fn fold_batch(
    candidates: Seq<BigDecimalInt>,
    k: int,
    snapshot: Map<Seq<u8>, ThreadInfoV>,
    cap: nat,
    st0: WorkerFold,
    target_iterations: u32,
    max_iterations: u32,
    target_final_digits: usize,
) -> WorkerFold
    decreases k,
{
    if k <= 0 {
        st0
    } else {
        fold_candidate(
            fold_batch(candidates, k - 1, snapshot, cap, st0, target_iterations, max_iterations,
                target_final_digits),
            snapshot,
            cap,
            candidates[k - 1].value(),
            target_iterations,
            max_iterations,
            target_final_digits,
        )
    }
}

/// A worker's starting fold state: its local plane and nothing found.
pub open spec fn fold_start(local: Map<Seq<u8>, ThreadInfoV>) -> WorkerFold {
    WorkerFold {
        local,
        records: Seq::empty(),
        promising: Seq::empty(),
        seeds: 0,
        best_iterations: 0,
        best_digits: 0,
        fits: true,
    }
}

/// The candidate list matches the fold's findings item by item.
pub open spec fn found_match(list: Seq<RecordCandidate>, found: Seq<FoundV>) -> bool {
    &&& list.len() == found.len()
    &&& forall|t: int|
        0 <= t < list.len() ==> (#[trigger] list[t]).number.value() == found[t].seed
            && list[t].iterations == found[t].iterations && list[t].final_digits
            == found[t].digits
}

/// A matching pair of lists stays matching when matching items are
/// appended.
proof fn lemma_found_match_push(
    list: Seq<RecordCandidate>,
    found: Seq<FoundV>,
    c: RecordCandidate,
    f: FoundV,
)
    requires
        found_match(list, found),
        c.number.value() == f.seed,
        c.iterations == f.iterations,
        c.final_digits == f.digits,
    ensures
        found_match(list.push(c), found.push(f)),
{
    assert forall|t: int|
        0 <= t < list.push(c).len() implies (#[trigger] list.push(c)[t]).number.value()
            == found.push(f)[t].seed && list.push(c)[t].iterations == found.push(f)[t].iterations
            && list.push(c)[t].final_digits == found.push(f)[t].digits by {
        if t < list.len() {
            assert(list.push(c)[t] == list[t]);
            assert(found.push(f)[t] == found[t]);
        }
    }
}

/// The fold of `k` consecutive candidate values from `lo` on.
pub open spec fn fold_range(
    lo: nat,
    k: int,
    snapshot: Map<Seq<u8>, ThreadInfoV>,
    cap: nat,
    st0: WorkerFold,
    target_iterations: u32,
    max_iterations: u32,
    target_final_digits: usize,
) -> WorkerFold
    decreases k,
{
    if k <= 0 {
        st0
    } else {
        fold_candidate(
            fold_range(lo, k - 1, snapshot, cap, st0, target_iterations, max_iterations,
                target_final_digits),
            snapshot,
            cap,
            (lo + k - 1) as nat,
            target_iterations,
            max_iterations,
            target_final_digits,
        )
    }
}

/// On consecutive candidates the two folds agree.
proof fn lemma_fold_batch_range(
    candidates: Seq<BigDecimalInt>,
    k: int,
    lo: nat,
    snapshot: Map<Seq<u8>, ThreadInfoV>,
    cap: nat,
    st0: WorkerFold,
    target_iterations: u32,
    max_iterations: u32,
    target_final_digits: usize,
)
    requires
        0 <= k <= candidates.len(),
        forall|t: int| 0 <= t < k ==> (#[trigger] candidates[t]).value() == lo + t,
    ensures
        fold_batch(candidates, k, snapshot, cap, st0, target_iterations, max_iterations,
            target_final_digits) == fold_range(lo, k, snapshot, cap, st0, target_iterations,
            max_iterations, target_final_digits),
    decreases k,
{
    if k > 0 {
        lemma_fold_batch_range(candidates, k - 1, lo, snapshot, cap, st0, target_iterations,
            max_iterations, target_final_digits);
    }
}

/// The cache plane a warmup fold carries, and whether every write so
/// far fit under the bound.
pub ghost struct WarmupFold {
    pub local: Map<Seq<u8>, ThreadInfoV>,
    pub fits: bool,
}

/// One warmup seed's effect on the cache plane: the run writes its orbit
/// when it ends naturally at or past the threshold, and writes nothing on
/// a hit or a short ending.
pub open spec fn warmup_step(
    st: WarmupFold,
    snapshot: Map<Seq<u8>, ThreadInfoV>,
    cap: nat,
    v: nat,
    bound: u32,
) -> WarmupFold {
    let m = snapshot.union_prefer_right(st.local);
    match run_outcome(v, bound, m) {
        RunOutcome::Pal(j) => {
            if j >= CACHE_THRESHOLD {
                WarmupFold {
                    local: orbit_entries(
                        st.local,
                        v,
                        run_info(v, j, true),
                        spec_min(ADMISSION_PREFIX_LIMIT as int, j as int),
                    ),
                    fits: st.fits && st.local.dom().len() + spec_min(
                        ADMISSION_PREFIX_LIMIT as int,
                        j as int,
                    ) <= cap,
                }
            } else {
                st
            }
        },
        RunOutcome::Hit(i) => st,
        RunOutcome::Exhausted => {
            if bound >= CACHE_THRESHOLD {
                WarmupFold {
                    local: orbit_entries(
                        st.local,
                        v,
                        run_info(v, bound, false),
                        spec_min(ADMISSION_PREFIX_LIMIT as int, bound as int),
                    ),
                    fits: st.fits && st.local.dom().len() + spec_min(
                        ADMISSION_PREFIX_LIMIT as int,
                        bound as int,
                    ) <= cap,
                }
            } else {
                st
            }
        },
    }
}

/// The cache plane after warming the seeds `1..=k`.
pub open spec fn warmup_fold(
    k: nat,
    snapshot: Map<Seq<u8>, ThreadInfoV>,
    cap: nat,
    local0: Map<Seq<u8>, ThreadInfoV>,
    bound: u32,
) -> WarmupFold
    decreases k,
{
    if k == 0 {
        WarmupFold { local: local0, fits: true }
    } else {
        warmup_step(warmup_fold((k - 1) as nat, snapshot, cap, local0, bound), snapshot, cap, k, bound)
    }
}

/// Whether a counter has just crossed a persistence boundary.
pub open spec fn checkpoint_boundary(tested: u64, interval: u64) -> bool {
    if interval == 0 {
        tested == 0
    } else {
        tested % interval == 0
    }
}

/// One worker's findings over a slice of a batch.
pub struct BatchResults {
    pub records: Vec<RecordCandidate>,
    pub promising: Vec<RecordCandidate>,
    pub seeds_tested: u64,
    pub best_iterations: u32,
    pub best_digits: usize,
}

/// How one turn of the hunt loop opens: a batch of candidates over a
/// shared snapshot of the cache, a width advance, or the end.
pub enum BatchStart {
    Candidates { candidates: Vec<BigDecimalInt>, snapshot: SharedCacheView },
    WidthAdvanced,
    Finished,
}

/// What one turn of the hunt loop did.
pub enum HuntStep {
    /// A batch was processed; `records` holds the record palindromes it
    /// found, and `checkpoint_due` says a checkpoint boundary was crossed.
    Batch { records: Vec<RecordCandidate>, checkpoint_due: bool },
    /// The width was exhausted and the hunt moved one digit up.
    WidthAdvanced,
    /// The width was exhausted and no wider width remains.
    Finished,
}

/// Every record candidate in `list` lies in the record window.
pub open spec fn records_sound(
    list: Seq<RecordCandidate>,
    target_iterations: u32,
    max_iterations: u32,
    target_final_digits: usize,
) -> bool {
    forall|i: int| 0 <= i < list.len() ==> target_iterations <= (#[trigger] list[i]).iterations
        <= max_iterations && list[i].final_digits >= target_final_digits
}

/// Orchestrates the batched search: pulls raw candidate batches, filters
/// and runs them against a snapshot of the cache, folds the worker's
/// findings back, and steps across widths.
pub struct RecordHunter {
    pub min_digits: usize,
    pub max_digits: Option<usize>,
    pub current_digits: usize,
    pub current_range_tested: u64,
    pub target_iterations: u32,
    pub max_iterations: u32,
    pub target_final_digits: usize,
    pub thread_cache: ThreadCache,
    pub seed_generator: SeedGenerator,
    pub generator_mode: GeneratorMode,
    pub stats: HuntStatistics,
    pub checkpoint_interval: u64,
    pub checkpoint_file: String,
}

impl RecordHunter {
    /// The hunter's planes are sound and the generator matches the width.
    pub open spec fn wf(&self) -> bool {
        &&& self.thread_cache.wf()
        &&& self.seed_generator.wf()
        &&& 1 <= self.current_digits
        &&& self.seed_generator.spec_digits() == self.current_digits
        &&& self.seed_generator.spec_mode() == self.generator_mode
        &&& (self.max_digits matches Some(d) ==> d < usize::MAX)
    }

    /// The configuration fields that never change over a hunt.
    pub open spec fn same_config(&self, other: &Self) -> bool {
        &&& self.min_digits == other.min_digits
        &&& self.max_digits == other.max_digits
        &&& self.target_iterations == other.target_iterations
        &&& self.max_iterations == other.max_iterations
        &&& self.target_final_digits == other.target_final_digits
        &&& self.generator_mode == other.generator_mode
        &&& self.checkpoint_interval == other.checkpoint_interval
        &&& self.checkpoint_file@ == other.checkpoint_file@
    }

    /// A hunter at the bottom of `min_digits`, with fresh statistics and
    /// an empty cache bounded by `cache_size`.
    pub fn new(config: HuntConfig) -> (r: Self)
        requires
            config.valid(),
            config.min_digits + 1 <= usize::MAX,
            config.max_digits matches Some(d) ==> d < usize::MAX,
        ensures
            r.wf(),
            r.min_digits == config.min_digits,
            r.max_digits == config.max_digits,
            r.current_digits == config.min_digits,
            r.current_range_tested == 0,
            r.target_iterations == config.target_iterations,
            r.max_iterations == config.max_iterations,
            r.target_final_digits == config.target_final_digits,
            r.generator_mode == config.generator_mode,
            r.checkpoint_interval == config.checkpoint_interval,
            r.checkpoint_file@ == config.checkpoint_file@,
            r.stats.numbers_tested == 0,
            r.stats.seeds_tested == 0,
            r.stats.cache_hits == 0,
            r.stats.cache_misses == 0,
            r.stats.best_iterations_found == 0,
            r.stats.best_digits_found == 0,
            r.stats.candidates_above_200@.len() == 0,
            r.seed_generator.current_value() == pow10((config.min_digits - 1) as nat),
            r.thread_cache.local_count() == 0,
            r.thread_cache.spec_max_size() == config.cache_size,
    {
        RecordHunter {
            min_digits: config.min_digits,
            max_digits: config.max_digits,
            current_digits: config.min_digits,
            current_range_tested: 0,
            target_iterations: config.target_iterations,
            max_iterations: config.max_iterations,
            target_final_digits: config.target_final_digits,
            thread_cache: ThreadCache::new(config.cache_size),
            seed_generator: SeedGenerator::new(config.min_digits, config.generator_mode),
            generator_mode: config.generator_mode,
            stats: HuntStatistics {
                numbers_tested: 0,
                seeds_tested: 0,
                cache_hits: 0,
                cache_misses: 0,
                best_iterations_found: 0,
                best_digits_found: 0,
                candidates_above_200: Vec::new(),
            },
            checkpoint_interval: config.checkpoint_interval,
            checkpoint_file: config.checkpoint_file,
        }
    }

    /// Seeds the cache with the orbits of every number up to a million,
    /// each run for up to a thousand steps.
    pub fn warmup_cache(&mut self)
        requires
            old(self).wf(),
        ensures
            final(self).wf(),
            final(self).same_config(old(self)),
            final(self).current_digits == old(self).current_digits,
            final(self).seed_generator.current_value() == old(self).seed_generator.current_value(),
            final(self).stats.numbers_tested == old(self).stats.numbers_tested,
            final(self).stats.seeds_tested == old(self).stats.seeds_tested,
            final(self).thread_cache.snapshot_map() == old(self).thread_cache.snapshot_map(),
            final(self).thread_cache.has_snapshot() == old(self).thread_cache.has_snapshot(),
            final(self).thread_cache.spec_max_size() == old(self).thread_cache.spec_max_size(),
            ({
                let st = warmup_fold(
                    1000000,
                    old(self).thread_cache.snapshot_map(),
                    old(self).thread_cache.spec_max_size(),
                    old(self).thread_cache.local_map(),
                    1000,
                );
                st.fits ==> final(self).thread_cache.local_map() == st.local
            }),
    {
        let ghost snap0 = old(self).thread_cache.snapshot_map();
        let ghost cap0 = old(self).thread_cache.spec_max_size();
        let ghost local0 = old(self).thread_cache.local_map();
        let mut n: u64 = 1;
        while n <= 1000000
            invariant
                self.wf(),
                self.same_config(old(self)),
                self.current_digits == old(self).current_digits,
                self.current_range_tested == old(self).current_range_tested,
                self.seed_generator.current_value() == old(self).seed_generator.current_value(),
                self.stats.numbers_tested == old(self).stats.numbers_tested,
                self.stats.seeds_tested == old(self).stats.seeds_tested,
                self.thread_cache.snapshot_map() == old(self).thread_cache.snapshot_map(),
                self.thread_cache.has_snapshot() == old(self).thread_cache.has_snapshot(),
                self.thread_cache.spec_max_size() == old(self).thread_cache.spec_max_size(),
                snap0 == old(self).thread_cache.snapshot_map(),
                cap0 == old(self).thread_cache.spec_max_size(),
                local0 == old(self).thread_cache.local_map(),
                1 <= n <= 1000001,
                ({
                    let st = warmup_fold((n - 1) as nat, snap0, cap0, local0, 1000);
                    st.fits ==> self.thread_cache.local_map() == st.local
                }),
            decreases 1000001 - n,
        {
            let ghost cache0 = self.thread_cache;
            let seed = BigDecimalInt::from_u64(n);
            let _ = lychrel_iteration_with_cache(seed, 1000, &mut self.thread_cache);
            proof {
                let v = n as nat;
                let st_prev = warmup_fold((n - 1) as nat, snap0, cap0, local0, 1000);
                let st_next = warmup_fold(n as nat, snap0, cap0, local0, 1000);
                assert(st_next == warmup_step(st_prev, snap0, cap0, v, 1000));
                if st_next.fits {
                    assert(st_prev.fits);
                    assert(cache0.local_map() == st_prev.local);
                    let m = snap0.union_prefer_right(st_prev.local);
                    assert(m == cache0.lookup_map());
                    lemma_run_outcome_cases(v, 1000, m);
                    match run_outcome(v, 1000, m) {
                        RunOutcome::Pal(j) => {
                            if j >= CACHE_THRESHOLD {
                                cache0.lemma_local_count_is_map_size();
                            }
                        },
                        RunOutcome::Hit(i2) => {
                        },
                        RunOutcome::Exhausted => {
                            cache0.lemma_local_count_is_map_size();
                        },
                    }
                }
            }
            n += 1;
        }
    }


    /// What one worker's pass over a slice of candidates found.
    /// Whole-batch bookkeeping belongs to `absorb_batch`.
    pub fn process_batch(
        candidates: &[BigDecimalInt],
        worker: &mut ThreadCache,
        target_iterations: u32,
        max_iterations: u32,
        target_final_digits: usize,
    ) -> (r: BatchResults)
        requires
            old(worker).wf(),
            forall|k: int| 0 <= k < candidates@.len() ==> (#[trigger] candidates@[k]).wf(),
        ensures
            final(worker).wf(),
            final(worker).snapshot_map() == old(worker).snapshot_map(),
            final(worker).has_snapshot() == old(worker).has_snapshot(),
            final(worker).spec_max_size() == old(worker).spec_max_size(),
            records_sound(r.records@, target_iterations, max_iterations, target_final_digits),
            forall|t: int|
                0 <= t < r.promising@.len() ==> (#[trigger] r.promising@[t]).iterations
                    >= PROMISING_ITERATIONS,
            r.seeds_tested == admitted_in(candidates@, candidates@.len() as int),
            ({
                let st = fold_batch(
                    candidates@,
                    candidates@.len() as int,
                    old(worker).snapshot_map(),
                    old(worker).spec_max_size(),
                    fold_start(old(worker).local_map()),
                    target_iterations,
                    max_iterations,
                    target_final_digits,
                );
                st.fits ==> {
                    &&& final(worker).local_map() == st.local
                    &&& found_match(r.records@, st.records)
                    &&& found_match(r.promising@, st.promising)
                    &&& r.best_iterations == st.best_iterations
                    &&& r.best_digits == st.best_digits
                }
            }),
    {
        let ghost snap0 = old(worker).snapshot_map();
        let ghost cap0 = old(worker).spec_max_size();
        let ghost st0 = fold_start(old(worker).local_map());
        let mut records: Vec<RecordCandidate> = Vec::new();
        let mut promising: Vec<RecordCandidate> = Vec::new();
        let mut seeds_tested: u64 = 0;
        let mut best_iterations: u32 = 0;
        let mut best_digits: usize = 0;

        let n = candidates.len();
        let mut i: usize = 0;
        while i < n
            invariant
                n == candidates@.len(),
                i <= n,
                forall|k: int| 0 <= k < n ==> (#[trigger] candidates@[k]).wf(),
                worker.wf(),
                worker.snapshot_map() == old(worker).snapshot_map(),
                worker.has_snapshot() == old(worker).has_snapshot(),
                worker.spec_max_size() == old(worker).spec_max_size(),
                records_sound(records@, target_iterations, max_iterations, target_final_digits),
                forall|t: int|
                    0 <= t < promising@.len() ==> (#[trigger] promising@[t]).iterations
                        >= PROMISING_ITERATIONS,
                seeds_tested == admitted_in(candidates@, i as int),
                snap0 == old(worker).snapshot_map(),
                cap0 == old(worker).spec_max_size(),
                st0 == fold_start(old(worker).local_map()),
                ({
                    let st = fold_batch(
                        candidates@,
                        i as int,
                        snap0,
                        cap0,
                        st0,
                        target_iterations,
                        max_iterations,
                        target_final_digits,
                    );
                    st.fits ==> {
                        &&& worker.local_map() == st.local
                        &&& found_match(records@, st.records)
                        &&& found_match(promising@, st.promising)
                        &&& best_iterations == st.best_iterations
                        &&& best_digits == st.best_digits
                    }
                }),
            decreases n - i,
        {
            let ghost worker0 = *worker;
            let ghost records0 = records@;
            let ghost promising0 = promising@;
            let candidate = &candidates[i];
            proof {
                lemma_admitted_in_bound(candidates@, i as int);
            }
            if is_potential_seed(candidate) {
                seeds_tested = seeds_tested.saturating_add(1);
                let outcome = process_candidate(
                    candidate,
                    worker,
                    target_iterations,
                    max_iterations,
                    target_final_digits,
                );
                if let Some(p) = outcome {
                    if p.iterations > best_iterations {
                        best_iterations = p.iterations;
                    }
                    if p.final_digits > best_digits {
                        best_digits = p.final_digits;
                    }
                    if p.is_record {
                        records.push(
                            RecordCandidate {
                                number: p.number.clone(),
                                iterations: p.iterations,
                                final_digits: p.final_digits,
                                found_at: local_timestamp(),
                            },
                        );
                    }
                    if p.is_promising {
                        promising.push(
                            RecordCandidate {
                                number: p.number,
                                iterations: p.iterations,
                                final_digits: p.final_digits,
                                found_at: local_timestamp(),
                            },
                        );
                    }
                }
            }
            proof {
                let v = candidates@[i as int].value();
                let st_prev = fold_batch(
                    candidates@,
                    i as int,
                    snap0,
                    cap0,
                    st0,
                    target_iterations,
                    max_iterations,
                    target_final_digits,
                );
                let st_next = fold_batch(
                    candidates@,
                    i + 1,
                    snap0,
                    cap0,
                    st0,
                    target_iterations,
                    max_iterations,
                    target_final_digits,
                );
                assert(st_next == fold_candidate(
                    st_prev,
                    snap0,
                    cap0,
                    v,
                    target_iterations,
                    max_iterations,
                    target_final_digits,
                ));
                if st_next.fits {
                    assert(st_prev.fits);
                    assert(worker0.local_map() == st_prev.local);
                    assert(found_match(records0, st_prev.records));
                    assert(found_match(promising0, st_prev.promising));
                    if crate::seed_generator::admitted_seed(v) && !quick_reject(v) {
                        let m = snap0.union_prefer_right(st_prev.local);
                        assert(m == worker0.lookup_map());
                        assert(!pal_nat(v)) by {
                            if pal_nat(v) {
                                assert(orbit(v, 0) == v);
                                assert(0 <= QUICK_FILTER_ITERATIONS && pal_nat(orbit(v, 0)));
                            }
                        }
                        lemma_run_outcome_cases(v, max_iterations, m);
                        match run_outcome(v, max_iterations, m) {
                            RunOutcome::Pal(j) => {
                                assert(pal_stop_at(v, max_iterations, m, j));
                                if j >= CACHE_THRESHOLD {
                                    worker0.lemma_local_count_is_map_size();
                                }
                                if target_iterations <= j <= max_iterations
                                    && digit_count_of(orbit(v, j as nat))
                                    >= target_final_digits {
                                    lemma_found_match_push(
                                        records0,
                                        st_prev.records,
                                        records@.last(),
                                        st_next.records.last(),
                                    );
                                }
                                if j >= PROMISING_ITERATIONS {
                                    lemma_found_match_push(
                                        promising0,
                                        st_prev.promising,
                                        promising@.last(),
                                        st_next.promising.last(),
                                    );
                                }
                            },
                            RunOutcome::Hit(i2) => {
                                assert(hit_at(v, max_iterations, m, i2));
                                let t = cached_info(m, orbit(v, i2 as nat));
                                let iters = sat_add_u32(i2, cache_delta(t));
                                if t.reached_palindrome && target_iterations <= iters
                                    <= max_iterations && 0 >= target_final_digits {
                                    lemma_found_match_push(
                                        records0,
                                        st_prev.records,
                                        records@.last(),
                                        st_next.records.last(),
                                    );
                                }
                                if t.reached_palindrome && iters >= PROMISING_ITERATIONS {
                                    lemma_found_match_push(
                                        promising0,
                                        st_prev.promising,
                                        promising@.last(),
                                        st_next.promising.last(),
                                    );
                                }
                            },
                            RunOutcome::Exhausted => {
                                assert(exhausted(v, max_iterations, m));
                                if max_iterations >= CACHE_THRESHOLD {
                                    worker0.lemma_local_count_is_map_size();
                                }
                            },
                        }
                    }
                }
            }
            i += 1;
        }
        BatchResults { records, promising, seeds_tested, best_iterations, best_digits }
    }

    /// Opens one turn of the hunt loop: pulls the next raw batch and,
    /// when one exists, moves the cache's local plane into a shared
    /// snapshot for the batch's workers. The candidates are the
    /// consecutive values from the old position.
    pub fn begin_batch(&mut self) -> (r: BatchStart)
        requires
            old(self).wf(),
        ensures
            final(self).wf(),
            final(self).same_config(old(self)),
            r matches BatchStart::Candidates { candidates, snapshot } ==> {
                &&& old(self).seed_generator.current_value() < old(self).seed_generator.max_value()
                &&& candidates@.len() == spec_min(
                    BATCH_SIZE as int,
                    old(self).seed_generator.max_value() - old(
                        self,
                    ).seed_generator.current_value(),
                )
                &&& candidates@.len() >= 1
                &&& (forall|k: int|
                    0 <= k < candidates@.len() ==> (#[trigger] candidates@[k]).wf()
                        && candidates@[k].value() == old(self).seed_generator.current_value()
                        + k)
                &&& snapshot.wf()
                &&& snapshot@ == old(self).thread_cache.local_map()
                &&& final(self).current_digits == old(self).current_digits
                &&& final(self).current_range_tested == old(self).current_range_tested
                &&& final(self).stats == old(self).stats
                &&& final(self).seed_generator.current_value() == old(
                    self,
                ).seed_generator.current_value() + candidates@.len()
                &&& final(self).seed_generator.max_value() == old(self).seed_generator.max_value()
                &&& final(self).thread_cache.local_map() == Map::<Seq<u8>, ThreadInfoV>::empty()
                &&& final(self).thread_cache.local_count() == 0
                &&& final(self).thread_cache.snapshot_map() == old(self).thread_cache.local_map()
                &&& final(self).thread_cache.spec_hits() == old(self).thread_cache.spec_hits()
                &&& final(self).thread_cache.spec_misses() == old(self).thread_cache.spec_misses()
                &&& final(self).thread_cache.spec_max_size() == old(
                    self,
                ).thread_cache.spec_max_size()
            },
            r is WidthAdvanced ==> {
                &&& old(self).seed_generator.current_value() >= old(
                    self,
                ).seed_generator.max_value()
                &&& (old(self).max_digits matches Some(d) && old(self).current_digits < d)
                &&& final(self).current_digits == old(self).current_digits + 1
                &&& final(self).current_range_tested == 0
                &&& final(self).stats == old(self).stats
                &&& final(self).seed_generator.current_value() == pow10(
                    (final(self).current_digits - 1) as nat,
                )
                &&& final(self).seed_generator.max_value() == pow10(
                    final(self).current_digits as nat,
                )
            },
            r is Finished ==> {
                &&& old(self).seed_generator.current_value() >= old(
                    self,
                ).seed_generator.max_value()
                &&& (old(self).max_digits matches Some(d) ==> old(self).current_digits >= d)
                &&& final(self).current_digits == old(self).current_digits
                &&& final(self).current_range_tested == old(self).current_range_tested
                &&& final(self).stats == old(self).stats
                &&& final(self).seed_generator.current_value() == old(
                    self,
                ).seed_generator.current_value()
                &&& final(self).seed_generator.max_value() == old(self).seed_generator.max_value()
                &&& final(self).thread_cache.local_map() == old(self).thread_cache.local_map()
                &&& final(self).thread_cache.local_count() == old(self).thread_cache.local_count()
                &&& final(self).thread_cache.snapshot_map() == old(
                    self,
                ).thread_cache.snapshot_map()
                &&& final(self).thread_cache.spec_hits() == old(self).thread_cache.spec_hits()
                &&& final(self).thread_cache.spec_misses() == old(self).thread_cache.spec_misses()
            },
    {
        let raw_batch = self.seed_generator.next_raw_batch(BATCH_SIZE);

        if raw_batch.len() == 0 {
            let advance = match self.max_digits {
                Some(max_d) => self.current_digits < max_d,
                None => false,
            };
            if advance {
                self.current_range_tested = 0;
                self.current_digits = self.current_digits + 1;
                self.seed_generator = SeedGenerator::new(self.current_digits, self.generator_mode);
                return BatchStart::WidthAdvanced;
            }
            return BatchStart::Finished;
        }

        let snapshot = self.thread_cache.take_snapshot();
        BatchStart::Candidates { candidates: raw_batch, snapshot }
    }

    /// Closes one turn of the hunt loop: folds the batch's worker cache
    /// back in and accounts the batch under the statistics. The counts
    /// and lists are the caller's fold of the batch's `process_batch`
    /// results.
    pub fn absorb_batch(
        &mut self,
        batch_len: u64,
        seeds_tested: u64,
        best_iterations: u32,
        best_digits: usize,
        promising: Vec<RecordCandidate>,
        worker: ThreadCache,
    ) -> (checkpoint_due: bool)
        requires
            old(self).wf(),
            worker.wf(),
            forall|t: int|
                0 <= t < promising@.len() ==> (#[trigger] promising@[t]).iterations
                    >= PROMISING_ITERATIONS,
        ensures
            final(self).wf(),
            final(self).same_config(old(self)),
            final(self).current_digits == old(self).current_digits,
            final(self).seed_generator.current_value() == old(
                self,
            ).seed_generator.current_value(),
            final(self).seed_generator.max_value() == old(self).seed_generator.max_value(),
            final(self).stats.numbers_tested == sat_inc(
                old(self).stats.numbers_tested,
                batch_len as nat,
            ),
            final(self).stats.seeds_tested == sat_inc(
                old(self).stats.seeds_tested,
                seeds_tested as nat,
            ),
            final(self).stats.best_iterations_found >= old(self).stats.best_iterations_found,
            final(self).stats.best_digits_found >= old(self).stats.best_digits_found,
            final(self).stats.candidates_above_200@ == old(self).stats.candidates_above_200@
                + promising@,
            final(self).stats.candidates_above_200@.len()
                >= old(self).stats.candidates_above_200@.len(),
            forall|i: int|
                0 <= i < old(self).stats.candidates_above_200@.len()
                    ==> (#[trigger] final(self).stats.candidates_above_200@[i])
                    == old(self).stats.candidates_above_200@[i],
            forall|i: int|
                old(self).stats.candidates_above_200@.len() <= i
                    < final(self).stats.candidates_above_200@.len()
                    ==> (#[trigger] final(self).stats.candidates_above_200@[i]).iterations
                    >= PROMISING_ITERATIONS,
            final(self).stats.best_iterations_found == (if best_iterations > old(
                self,
            ).stats.best_iterations_found {
                best_iterations
            } else {
                old(self).stats.best_iterations_found
            }),
            final(self).stats.best_digits_found == (if best_digits > old(
                self,
            ).stats.best_digits_found {
                best_digits
            } else {
                old(self).stats.best_digits_found
            }),
            final(self).stats.cache_hits == final(self).thread_cache.spec_hits(),
            final(self).stats.cache_misses == final(self).thread_cache.spec_misses(),
            checkpoint_due == checkpoint_boundary(
                final(self).stats.numbers_tested,
                old(self).checkpoint_interval,
            ),
    {
        let mut promising = promising;
        self.thread_cache.merge(worker);
        self.stats.numbers_tested = self.stats.numbers_tested.saturating_add(batch_len);
        self.stats.seeds_tested = self.stats.seeds_tested.saturating_add(seeds_tested);
        self.current_range_tested = self.current_range_tested.saturating_add(batch_len);
        if best_iterations > self.stats.best_iterations_found {
            self.stats.best_iterations_found = best_iterations;
        }
        if best_digits > self.stats.best_digits_found {
            self.stats.best_digits_found = best_digits;
        }
        self.stats.candidates_above_200.append(&mut promising);
        let cache_stats = self.thread_cache.stats();
        self.stats.cache_hits = cache_stats.hits;
        self.stats.cache_misses = cache_stats.misses;

        if self.checkpoint_interval == 0 {
            self.stats.numbers_tested == 0
        } else {
            self.stats.numbers_tested % self.checkpoint_interval == 0
        }
    }

    /// One turn of the hunt loop: process a batch at the current width,
    /// or step to the next width, or finish.
    pub fn hunt_step(&mut self) -> (r: HuntStep)
        requires
            old(self).wf(),
        ensures
            final(self).wf(),
            final(self).same_config(old(self)),
            final(self).stats.best_iterations_found >= old(self).stats.best_iterations_found,
            final(self).stats.best_digits_found >= old(self).stats.best_digits_found,
            final(self).stats.candidates_above_200@.len()
                >= old(self).stats.candidates_above_200@.len(),
            forall|i: int|
                0 <= i < old(self).stats.candidates_above_200@.len()
                    ==> (#[trigger] final(self).stats.candidates_above_200@[i])
                    == old(self).stats.candidates_above_200@[i],
            forall|i: int|
                old(self).stats.candidates_above_200@.len() <= i
                    < final(self).stats.candidates_above_200@.len()
                    ==> (#[trigger] final(self).stats.candidates_above_200@[i]).iterations
                    >= PROMISING_ITERATIONS,
            r matches HuntStep::Batch { records, checkpoint_due } ==> {
                &&& old(self).seed_generator.current_value() < old(self).seed_generator.max_value()
                &&& records_sound(
                    records@,
                    old(self).target_iterations,
                    old(self).max_iterations,
                    old(self).target_final_digits,
                )
                &&& final(self).current_digits == old(self).current_digits
                &&& final(self).seed_generator.current_value() == old(
                    self,
                ).seed_generator.current_value() + spec_min(
                    BATCH_SIZE as int,
                    old(self).seed_generator.max_value() - old(
                        self,
                    ).seed_generator.current_value(),
                )
                &&& final(self).stats.numbers_tested == sat_inc(
                    old(self).stats.numbers_tested,
                    spec_min(
                        BATCH_SIZE as int,
                        old(self).seed_generator.max_value() - old(
                            self,
                        ).seed_generator.current_value(),
                    ) as nat,
                )
                &&& checkpoint_due == checkpoint_boundary(
                    final(self).stats.numbers_tested,
                    old(self).checkpoint_interval,
                )
                &&& final(self).stats.seeds_tested == sat_inc(
                    old(self).stats.seeds_tested,
                    admitted_count(
                        old(self).seed_generator.current_value(),
                        spec_min(
                            BATCH_SIZE as int,
                            old(self).seed_generator.max_value() - old(
                                self,
                            ).seed_generator.current_value(),
                        ) as nat,
                    ),
                )
                &&& final(self).seed_generator.max_value() == old(self).seed_generator.max_value()
                &&& final(self).stats.cache_hits == final(self).thread_cache.spec_hits()
                &&& final(self).stats.cache_misses == final(self).thread_cache.spec_misses()
                &&& ({
                    let st = fold_range(
                        old(self).seed_generator.current_value(),
                        spec_min(
                            BATCH_SIZE as int,
                            old(self).seed_generator.max_value() - old(
                                self,
                            ).seed_generator.current_value(),
                        ),
                        old(self).thread_cache.local_map(),
                        WORKER_CACHE_SIZE as nat,
                        fold_start(Map::<Seq<u8>, ThreadInfoV>::empty()),
                        old(self).target_iterations,
                        old(self).max_iterations,
                        old(self).target_final_digits,
                    );
                    st.fits ==> {
                        &&& found_match(records@, st.records)
                        &&& final(self).stats.candidates_above_200@.len() == old(
                            self,
                        ).stats.candidates_above_200@.len() + st.promising.len()
                        &&& (forall|t: int|
                            0 <= t < st.promising.len() ==> {
                                let kept = #[trigger] final(self).stats.candidates_above_200@[
                                    old(self).stats.candidates_above_200@.len() + t];
                                kept.number.value() == st.promising[t].seed && kept.iterations
                                    == st.promising[t].iterations && kept.final_digits
                                    == st.promising[t].digits
                            })
                        &&& final(self).stats.best_iterations_found == (
                        if st.best_iterations > old(self).stats.best_iterations_found {
                            st.best_iterations
                        } else {
                            old(self).stats.best_iterations_found
                        })
                        &&& final(self).stats.best_digits_found == (if st.best_digits > old(
                            self,
                        ).stats.best_digits_found {
                            st.best_digits
                        } else {
                            old(self).stats.best_digits_found as nat
                        })
                    }
                })
            },
            r is WidthAdvanced ==> {
                &&& old(self).seed_generator.current_value() >= old(
                    self,
                ).seed_generator.max_value()
                &&& (old(self).max_digits matches Some(d) && old(self).current_digits < d)
                &&& final(self).current_digits == old(self).current_digits + 1
                &&& final(self).current_range_tested == 0
                &&& final(self).stats.numbers_tested == old(self).stats.numbers_tested
                &&& final(self).stats.seeds_tested == old(self).stats.seeds_tested
                &&& final(self).seed_generator.current_value() == pow10(
                    (final(self).current_digits - 1) as nat,
                )
                &&& final(self).seed_generator.max_value() == pow10(
                    final(self).current_digits as nat,
                )
            },
            r is Finished ==> {
                &&& old(self).seed_generator.current_value() >= old(
                    self,
                ).seed_generator.max_value()
                &&& (old(self).max_digits matches Some(d) ==> old(self).current_digits >= d)
                &&& final(self).current_digits == old(self).current_digits
                &&& final(self).stats.numbers_tested == old(self).stats.numbers_tested
                &&& final(self).stats.seeds_tested == old(self).stats.seeds_tested
                &&& final(self).seed_generator.current_value() == old(
                    self,
                ).seed_generator.current_value()
                &&& final(self).seed_generator.max_value() == old(self).seed_generator.max_value()
            },
    {
        let ghost pre = *self;
        match self.begin_batch() {
            BatchStart::Candidates { candidates, snapshot } => {
                let mut worker = ThreadCache::new_worker(snapshot, WORKER_CACHE_SIZE);
                let ghost worker_start = worker;
                let results = Self::process_batch(
                    &candidates,
                    &mut worker,
                    self.target_iterations,
                    self.max_iterations,
                    self.target_final_digits,
                );
                proof {
                    lemma_admitted_in_consecutive(
                        candidates@,
                        pre.seed_generator.current_value(),
                        candidates@.len() as int,
                    );
                    assert(fold_start(Map::<Seq<u8>, ThreadInfoV>::empty()) == fold_start(
                        worker_start.local_map(),
                    ));
                    lemma_fold_batch_range(
                        candidates@,
                        candidates@.len() as int,
                        pre.seed_generator.current_value(),
                        worker_start.snapshot_map(),
                        worker_start.spec_max_size(),
                        fold_start(worker_start.local_map()),
                        self.target_iterations,
                        self.max_iterations,
                        self.target_final_digits,
                    );
                }
                let BatchResults {
                    records,
                    promising,
                    seeds_tested,
                    best_iterations,
                    best_digits,
                } = results;
                let batch_len = candidates.len() as u64;
                let checkpoint_due = self.absorb_batch(
                    batch_len,
                    seeds_tested,
                    best_iterations,
                    best_digits,
                    promising,
                    worker,
                );
                HuntStep::Batch { records, checkpoint_due }
            },
            BatchStart::WidthAdvanced => HuntStep::WidthAdvanced,
            BatchStart::Finished => HuntStep::Finished,
        }
    }


    /// Runs the hunt to completion and reports what it found. Checkpoint
    /// persistence is the embedding application's concern: it can drive
    /// `hunt_step` itself and write a checkpoint whenever a step says one
    /// is due.
    /// Whether a hunter stands at the bottom of its starting width with a
    /// highest width configured: the state `new` leaves it in. For such a
    /// hunter the hunt's total count is pinned exactly.
    pub open spec fn fresh_bounded_start(&self) -> bool {
        &&& self.seed_generator.current_value() == pow10((self.current_digits - 1) as nat)
        &&& self.max_digits matches Some(md) && self.current_digits <= md
    }

    pub fn hunt(&mut self) -> (r: HuntResults)
        requires
            old(self).wf(),
        ensures
            final(self).wf(),
            final(self).same_config(old(self)),
            records_sound(
                r.records@,
                old(self).target_iterations,
                old(self).max_iterations,
                old(self).target_final_digits,
            ),
            r.numbers_tested == final(self).stats.numbers_tested,
            r.seeds_tested == final(self).stats.seeds_tested,
            r.best_iterations_found == final(self).stats.best_iterations_found,
            final(self).seed_generator.current_value()
                >= final(self).seed_generator.max_value(),
            old(self).max_digits matches Some(d) ==> final(self).current_digits >= d,
            old(self).max_digits is None ==> final(self).current_digits
                == old(self).current_digits,
            final(self).stats.best_iterations_found >= old(self).stats.best_iterations_found,
            final(self).stats.best_digits_found >= old(self).stats.best_digits_found,
            forall|i: int|
                0 <= i < old(self).stats.candidates_above_200@.len()
                    ==> (#[trigger] final(self).stats.candidates_above_200@[i])
                    == old(self).stats.candidates_above_200@[i],
            forall|i: int|
                old(self).stats.candidates_above_200@.len() <= i
                    < final(self).stats.candidates_above_200@.len()
                    ==> (#[trigger] final(self).stats.candidates_above_200@[i]).iterations
                    >= PROMISING_ITERATIONS,
            r.candidates_above_200@.len() == final(self).stats.candidates_above_200@.len(),
            old(self).fresh_bounded_start() ==> final(self).stats.numbers_tested == sat_inc(
                old(self).stats.numbers_tested,
                widths_numbers(
                    old(self).current_digits as nat,
                    old(self).max_digits->0 as int,
                ),
            ),
    {
        proof {
            self.seed_generator.lemma_wf_bounds();
        }
        let ghost d0 = old(self).current_digits as nat;
        let ghost n0 = old(self).stats.numbers_tested;
        let mut records: Vec<RecordCandidate> = Vec::new();
        loop
            invariant
                self.wf(),
                self.same_config(old(self)),
                records_sound(
                    records@,
                    self.target_iterations,
                    self.max_iterations,
                    self.target_final_digits,
                ),
                d0 == old(self).current_digits as nat,
                1 <= d0,
                n0 == old(self).stats.numbers_tested,
                self.current_digits >= old(self).current_digits,
                self.stats.best_iterations_found >= old(self).stats.best_iterations_found,
                self.stats.best_digits_found >= old(self).stats.best_digits_found,
                self.stats.candidates_above_200@.len()
                    >= old(self).stats.candidates_above_200@.len(),
                forall|i: int|
                    0 <= i < old(self).stats.candidates_above_200@.len()
                        ==> (#[trigger] self.stats.candidates_above_200@[i])
                        == old(self).stats.candidates_above_200@[i],
                forall|i: int|
                    old(self).stats.candidates_above_200@.len() <= i
                        < self.stats.candidates_above_200@.len()
                        ==> (#[trigger] self.stats.candidates_above_200@[i]).iterations
                        >= PROMISING_ITERATIONS,
                old(self).max_digits is None ==> self.current_digits == old(
                    self,
                ).current_digits,
                self.seed_generator.max_value() == pow10(self.current_digits as nat),
                old(self).fresh_bounded_start() ==> {
                    &&& self.current_digits <= old(self).max_digits->0
                    &&& pow10((self.current_digits - 1) as nat) <= self.seed_generator.current_value()
                    &&& self.seed_generator.current_value() <= self.seed_generator.max_value()
                    &&& self.stats.numbers_tested == sat_inc(
                        n0,
                        (widths_numbers(d0, self.current_digits - 1) + (
                        self.seed_generator.current_value() - pow10(
                            (self.current_digits - 1) as nat,
                        ))) as nat,
                    )
                },
            ensures
                self.wf(),
                self.same_config(old(self)),
                records_sound(
                    records@,
                    self.target_iterations,
                    self.max_iterations,
                    self.target_final_digits,
                ),
                self.seed_generator.current_value() >= self.seed_generator.max_value(),
                old(self).max_digits matches Some(d) ==> self.current_digits >= d,
                old(self).max_digits is None ==> self.current_digits == old(
                    self,
                ).current_digits,
                self.stats.best_iterations_found >= old(self).stats.best_iterations_found,
                self.stats.best_digits_found >= old(self).stats.best_digits_found,
                forall|i: int|
                    0 <= i < old(self).stats.candidates_above_200@.len()
                        ==> (#[trigger] self.stats.candidates_above_200@[i])
                        == old(self).stats.candidates_above_200@[i],
                forall|i: int|
                    old(self).stats.candidates_above_200@.len() <= i
                        < self.stats.candidates_above_200@.len()
                        ==> (#[trigger] self.stats.candidates_above_200@[i]).iterations
                        >= PROMISING_ITERATIONS,
                old(self).fresh_bounded_start() ==> self.stats.numbers_tested == sat_inc(
                    n0,
                    widths_numbers(d0, old(self).max_digits->0 as int),
                ),
            decreases (match self.max_digits {
                Some(d) => if self.current_digits <= d {
                    (d - self.current_digits) as int
                } else {
                    0int
                },
                None => 0int,
            }), (if self.seed_generator.current_value() <= self.seed_generator.max_value() {
                self.seed_generator.max_value() - self.seed_generator.current_value()
            } else {
                0int
            }),
        {
            let ghost pre = *self;
            let step = self.hunt_step();
            match step {
                HuntStep::Batch { records: mut found, checkpoint_due: _ } => {
                    proof {
                        if old(self).fresh_bounded_start() {
                            let len = spec_min(
                                BATCH_SIZE as int,
                                pre.seed_generator.max_value()
                                    - pre.seed_generator.current_value(),
                            ) as nat;
                            lemma_sat_inc_adds(
                                n0,
                                (widths_numbers(d0, pre.current_digits - 1) + (
                                pre.seed_generator.current_value() - pow10(
                                    (pre.current_digits - 1) as nat,
                                ))) as nat,
                                len,
                            );
                        }
                    }
                    records.append(&mut found);
                },
                HuntStep::WidthAdvanced => {
                    proof {
                        if old(self).fresh_bounded_start() {
                            assert(pre.seed_generator.current_value()
                                == pre.seed_generator.max_value());
                            crate::digits::lemma_pow10_increases(
                                (pre.current_digits - 1) as nat,
                                pre.current_digits as nat,
                            );
                            assert(widths_numbers(d0, pre.current_digits as int)
                                == widths_numbers(d0, pre.current_digits - 1) + (pow10(
                                pre.current_digits as nat,
                            ) - pow10((pre.current_digits - 1) as nat)));
                        }
                    }
                },
                HuntStep::Finished => {
                    proof {
                        if old(self).fresh_bounded_start() {
                            let md = old(self).max_digits->0;
                            assert(self.current_digits == md);
                            assert(self.seed_generator.current_value()
                                == self.seed_generator.max_value());
                            crate::digits::lemma_pow10_increases((md - 1) as nat, md as nat);
                            assert(widths_numbers(d0, md as int) == widths_numbers(
                                d0,
                                md - 1,
                            ) + (pow10(md as nat) - pow10((md - 1) as nat)));
                        }
                    }
                    break;
                },
            }
        }
        HuntResults {
            numbers_tested: self.stats.numbers_tested,
            seeds_tested: self.stats.seeds_tested,
            records,
            candidates_above_200: crate::record_checkpoint::clone_candidates(
                &self.stats.candidates_above_200,
            ),
            best_iterations_found: self.stats.best_iterations_found,
        }
    }

    /// How many seeds the whole hunt expects to test, from `min_digits`
    /// through `max_digits`; an estimate, since the filter keeps about
    /// half of each width.
    pub fn calculate_total_numbers(&self) -> (r: u64)
        requires
            self.min_digits < usize::MAX,
            self.max_digits matches Some(d) ==> d < usize::MAX,
        ensures
            r == width_estimate_sum(
                self.min_digits as nat,
                match self.max_digits {
                    Some(d) => d as int,
                    None => self.min_digits as int,
                },
            ),
    {
        let max_d = match self.max_digits {
            Some(d) => d,
            None => self.min_digits,
        };
        sum_width_estimates(self.min_digits, max_d)
    }

    /// How many seeds the hunt has worked through: the estimates of the
    /// widths already finished, plus the count within the current width.
    pub fn calculate_processed_numbers(&self) -> (r: u64)
        requires
            self.min_digits >= 1,
            self.current_digits < usize::MAX,
        ensures
            r == sat64(
                width_estimate_sum(self.min_digits as nat, self.current_digits - 1)
                    + self.current_range_tested,
            ),
    {
        let completed = if self.current_digits >= 1 {
            sum_width_estimates(self.min_digits, self.current_digits - 1)
        } else {
            0
        };
        completed.saturating_add(self.current_range_tested)
    }

    /// The checkpoint value describing the hunt's present state; the
    /// embedding application writes it, and the companion cache entries,
    /// to disk.
    pub fn build_checkpoint(&self, cache_file: String) -> (r:
        crate::record_checkpoint::RecordHuntCheckpoint)
        requires
            self.wf(),
        ensures
            r.generator_state.current_value.wf(),
            r.generator_state.current_value.value() == self.seed_generator.current_value(),
            r.generator_state.digits == self.current_digits,
            r.generator_state.mode == self.generator_mode,
            r.statistics.numbers_tested == self.stats.numbers_tested,
            r.statistics.seeds_tested == self.stats.seeds_tested,
            r.statistics.cache_hits == self.stats.cache_hits,
            r.statistics.cache_misses == self.stats.cache_misses,
            r.statistics.best_iterations_found == self.stats.best_iterations_found,
            r.statistics.best_digits_found == self.stats.best_digits_found,
            r.statistics.candidates_above_200@.len() == self.stats.candidates_above_200@.len(),
            forall|i: int|
                0 <= i < r.statistics.candidates_above_200@.len() ==> {
                    let kept = #[trigger] r.statistics.candidates_above_200@[i];
                    let orig = self.stats.candidates_above_200@[i];
                    kept.number@ == orig.number@ && kept.iterations == orig.iterations
                        && kept.final_digits == orig.final_digits
                },
            r.thread_cache_file@ == cache_file@,
            r.config.min_digits == self.min_digits,
            r.config.max_digits == self.max_digits,
            r.config.target_iterations == self.target_iterations,
            r.config.max_iterations == self.max_iterations,
            r.config.target_final_digits == self.target_final_digits,
            r.config.cache_size == self.thread_cache.local_count(),
            r.config.checkpoint_interval == self.checkpoint_interval,
    {
        let position = self.seed_generator.current_position();
        crate::record_checkpoint::RecordHuntCheckpoint::new(
            &position,
            self.current_digits,
            self.generator_mode,
            &self.stats,
            cache_file,
            crate::record_checkpoint::CheckpointConfig {
                min_digits: self.min_digits,
                max_digits: self.max_digits,
                target_iterations: self.target_iterations,
                max_iterations: self.max_iterations,
                target_final_digits: self.target_final_digits,
                cache_size: self.thread_cache.len(),
                checkpoint_interval: self.checkpoint_interval,
            },
        )
    }
}


/// The bytes of `{\"min_digits\":`.
pub open spec fn lit_obj_open() -> Seq<u8> {
    seq![123, 34, 109, 105, 110, 95, 100, 105, 103, 105, 116, 115, 34, 58u8]
}

/// The bytes of `,\"max_digits\":`.
pub open spec fn lit_max_digits() -> Seq<u8> {
    seq![44, 34, 109, 97, 120, 95, 100, 105, 103, 105, 116, 115, 34, 58u8]
}

/// The bytes of `,\"target_iterations\":`.
pub open spec fn lit_target_iterations() -> Seq<u8> {
    seq![44, 34, 116, 97, 114, 103, 101, 116, 95, 105, 116, 101, 114, 97, 116, 105, 111, 110, 115, 34, 58u8]
}

/// The bytes of `,\"max_iterations\":`.
pub open spec fn lit_max_iterations() -> Seq<u8> {
    seq![44, 34, 109, 97, 120, 95, 105, 116, 101, 114, 97, 116, 105, 111, 110, 115, 34, 58u8]
}

/// The bytes of `,\"target_final_digits\":`.
pub open spec fn lit_target_final_digits() -> Seq<u8> {
    seq![44, 34, 116, 97, 114, 103, 101, 116, 95, 102, 105, 110, 97, 108, 95, 100, 105, 103, 105, 116, 115, 34, 58u8]
}

/// The bytes of `,\"cache_size\":`.
pub open spec fn lit_cache_size() -> Seq<u8> {
    seq![44, 34, 99, 97, 99, 104, 101, 95, 115, 105, 122, 101, 34, 58u8]
}

/// The bytes of `,\"generator_mode\":\"`.
pub open spec fn lit_generator_mode() -> Seq<u8> {
    seq![44, 34, 103, 101, 110, 101, 114, 97, 116, 111, 114, 95, 109, 111, 100, 101, 34, 58, 34u8]
}

/// The bytes of `\",\"checkpoint_interval\":`.
pub open spec fn lit_checkpoint_interval() -> Seq<u8> {
    seq![34, 44, 34, 99, 104, 101, 99, 107, 112, 111, 105, 110, 116, 95, 105, 110, 116, 101, 114, 118, 97, 108, 34, 58u8]
}

/// The bytes of `,\"checkpoint_file\":\"`.
pub open spec fn lit_checkpoint_file() -> Seq<u8> {
    seq![44, 34, 99, 104, 101, 99, 107, 112, 111, 105, 110, 116, 95, 102, 105, 108, 101, 34, 58, 34u8]
}

/// The bytes of `\",\"warmup\":`.
pub open spec fn lit_warmup() -> Seq<u8> {
    seq![34, 44, 34, 119, 97, 114, 109, 117, 112, 34, 58u8]
}

/// The bytes of `}`.
pub open spec fn lit_obj_close() -> Seq<u8> {
    seq![125u8]
}

/// The bytes of `null`.
pub open spec fn lit_null() -> Seq<u8> {
    seq![110, 117, 108, 108u8]
}

/// The bytes of `true`.
pub open spec fn lit_true() -> Seq<u8> {
    seq![116, 114, 117, 101u8]
}

/// The bytes of `false`.
pub open spec fn lit_false() -> Seq<u8> {
    seq![102, 97, 108, 115, 101u8]
}

/// The bytes of `Sequential`.
pub open spec fn lit_sequential() -> Seq<u8> {
    seq![83, 101, 113, 117, 101, 110, 116, 105, 97, 108u8]
}

/// The bytes of `SmartRandom`.
pub open spec fn lit_smart_random() -> Seq<u8> {
    seq![83, 109, 97, 114, 116, 82, 97, 110, 100, 111, 109u8]
}

/// The bytes of `PatternBased`.
pub open spec fn lit_pattern_based() -> Seq<u8> {
    seq![80, 97, 116, 116, 101, 114, 110, 66, 97, 115, 101, 100u8]
}

fn push_chunk_lit_obj_open(out: &mut Vec<u8>)
    ensures
        final(out)@ == old(out)@ + lit_obj_open(),
{
    out.push(123);
    out.push(34);
    out.push(109);
    out.push(105);
    out.push(110);
    out.push(95);
    out.push(100);
    out.push(105);
    out.push(103);
    out.push(105);
    out.push(116);
    out.push(115);
    out.push(34);
    out.push(58);
    proof {
        assert(final(out)@ =~= old(out)@ + lit_obj_open());
    }
}

fn push_chunk_lit_max_digits(out: &mut Vec<u8>)
    ensures
        final(out)@ == old(out)@ + lit_max_digits(),
{
    out.push(44);
    out.push(34);
    out.push(109);
    out.push(97);
    out.push(120);
    out.push(95);
    out.push(100);
    out.push(105);
    out.push(103);
    out.push(105);
    out.push(116);
    out.push(115);
    out.push(34);
    out.push(58);
    proof {
        assert(final(out)@ =~= old(out)@ + lit_max_digits());
    }
}

fn push_chunk_lit_target_iterations(out: &mut Vec<u8>)
    ensures
        final(out)@ == old(out)@ + lit_target_iterations(),
{
    out.push(44);
    out.push(34);
    out.push(116);
    out.push(97);
    out.push(114);
    out.push(103);
    out.push(101);
    out.push(116);
    out.push(95);
    out.push(105);
    out.push(116);
    out.push(101);
    out.push(114);
    out.push(97);
    out.push(116);
    out.push(105);
    out.push(111);
    out.push(110);
    out.push(115);
    out.push(34);
    out.push(58);
    proof {
        assert(final(out)@ =~= old(out)@ + lit_target_iterations());
    }
}

fn push_chunk_lit_max_iterations(out: &mut Vec<u8>)
    ensures
        final(out)@ == old(out)@ + lit_max_iterations(),
{
    out.push(44);
    out.push(34);
    out.push(109);
    out.push(97);
    out.push(120);
    out.push(95);
    out.push(105);
    out.push(116);
    out.push(101);
    out.push(114);
    out.push(97);
    out.push(116);
    out.push(105);
    out.push(111);
    out.push(110);
    out.push(115);
    out.push(34);
    out.push(58);
    proof {
        assert(final(out)@ =~= old(out)@ + lit_max_iterations());
    }
}

fn push_chunk_lit_target_final_digits(out: &mut Vec<u8>)
    ensures
        final(out)@ == old(out)@ + lit_target_final_digits(),
{
    out.push(44);
    out.push(34);
    out.push(116);
    out.push(97);
    out.push(114);
    out.push(103);
    out.push(101);
    out.push(116);
    out.push(95);
    out.push(102);
    out.push(105);
    out.push(110);
    out.push(97);
    out.push(108);
    out.push(95);
    out.push(100);
    out.push(105);
    out.push(103);
    out.push(105);
    out.push(116);
    out.push(115);
    out.push(34);
    out.push(58);
    proof {
        assert(final(out)@ =~= old(out)@ + lit_target_final_digits());
    }
}

fn push_chunk_lit_cache_size(out: &mut Vec<u8>)
    ensures
        final(out)@ == old(out)@ + lit_cache_size(),
{
    out.push(44);
    out.push(34);
    out.push(99);
    out.push(97);
    out.push(99);
    out.push(104);
    out.push(101);
    out.push(95);
    out.push(115);
    out.push(105);
    out.push(122);
    out.push(101);
    out.push(34);
    out.push(58);
    proof {
        assert(final(out)@ =~= old(out)@ + lit_cache_size());
    }
}

fn push_chunk_lit_generator_mode(out: &mut Vec<u8>)
    ensures
        final(out)@ == old(out)@ + lit_generator_mode(),
{
    out.push(44);
    out.push(34);
    out.push(103);
    out.push(101);
    out.push(110);
    out.push(101);
    out.push(114);
    out.push(97);
    out.push(116);
    out.push(111);
    out.push(114);
    out.push(95);
    out.push(109);
    out.push(111);
    out.push(100);
    out.push(101);
    out.push(34);
    out.push(58);
    out.push(34);
    proof {
        assert(final(out)@ =~= old(out)@ + lit_generator_mode());
    }
}

fn push_chunk_lit_checkpoint_interval(out: &mut Vec<u8>)
    ensures
        final(out)@ == old(out)@ + lit_checkpoint_interval(),
{
    out.push(34);
    out.push(44);
    out.push(34);
    out.push(99);
    out.push(104);
    out.push(101);
    out.push(99);
    out.push(107);
    out.push(112);
    out.push(111);
    out.push(105);
    out.push(110);
    out.push(116);
    out.push(95);
    out.push(105);
    out.push(110);
    out.push(116);
    out.push(101);
    out.push(114);
    out.push(118);
    out.push(97);
    out.push(108);
    out.push(34);
    out.push(58);
    proof {
        assert(final(out)@ =~= old(out)@ + lit_checkpoint_interval());
    }
}

fn push_chunk_lit_checkpoint_file(out: &mut Vec<u8>)
    ensures
        final(out)@ == old(out)@ + lit_checkpoint_file(),
{
    out.push(44);
    out.push(34);
    out.push(99);
    out.push(104);
    out.push(101);
    out.push(99);
    out.push(107);
    out.push(112);
    out.push(111);
    out.push(105);
    out.push(110);
    out.push(116);
    out.push(95);
    out.push(102);
    out.push(105);
    out.push(108);
    out.push(101);
    out.push(34);
    out.push(58);
    out.push(34);
    proof {
        assert(final(out)@ =~= old(out)@ + lit_checkpoint_file());
    }
}

fn push_chunk_lit_warmup(out: &mut Vec<u8>)
    ensures
        final(out)@ == old(out)@ + lit_warmup(),
{
    out.push(34);
    out.push(44);
    out.push(34);
    out.push(119);
    out.push(97);
    out.push(114);
    out.push(109);
    out.push(117);
    out.push(112);
    out.push(34);
    out.push(58);
    proof {
        assert(final(out)@ =~= old(out)@ + lit_warmup());
    }
}

fn push_chunk_lit_obj_close(out: &mut Vec<u8>)
    ensures
        final(out)@ == old(out)@ + lit_obj_close(),
{
    out.push(125);
    proof {
        assert(final(out)@ =~= old(out)@ + lit_obj_close());
    }
}

fn push_chunk_lit_null(out: &mut Vec<u8>)
    ensures
        final(out)@ == old(out)@ + lit_null(),
{
    out.push(110);
    out.push(117);
    out.push(108);
    out.push(108);
    proof {
        assert(final(out)@ =~= old(out)@ + lit_null());
    }
}

fn push_chunk_lit_true(out: &mut Vec<u8>)
    ensures
        final(out)@ == old(out)@ + lit_true(),
{
    out.push(116);
    out.push(114);
    out.push(117);
    out.push(101);
    proof {
        assert(final(out)@ =~= old(out)@ + lit_true());
    }
}

fn push_chunk_lit_false(out: &mut Vec<u8>)
    ensures
        final(out)@ == old(out)@ + lit_false(),
{
    out.push(102);
    out.push(97);
    out.push(108);
    out.push(115);
    out.push(101);
    proof {
        assert(final(out)@ =~= old(out)@ + lit_false());
    }
}

fn push_chunk_lit_sequential(out: &mut Vec<u8>)
    ensures
        final(out)@ == old(out)@ + lit_sequential(),
{
    out.push(83);
    out.push(101);
    out.push(113);
    out.push(117);
    out.push(101);
    out.push(110);
    out.push(116);
    out.push(105);
    out.push(97);
    out.push(108);
    proof {
        assert(final(out)@ =~= old(out)@ + lit_sequential());
    }
}

fn push_chunk_lit_smart_random(out: &mut Vec<u8>)
    ensures
        final(out)@ == old(out)@ + lit_smart_random(),
{
    out.push(83);
    out.push(109);
    out.push(97);
    out.push(114);
    out.push(116);
    out.push(82);
    out.push(97);
    out.push(110);
    out.push(100);
    out.push(111);
    out.push(109);
    proof {
        assert(final(out)@ =~= old(out)@ + lit_smart_random());
    }
}

fn push_chunk_lit_pattern_based(out: &mut Vec<u8>)
    ensures
        final(out)@ == old(out)@ + lit_pattern_based(),
{
    out.push(80);
    out.push(97);
    out.push(116);
    out.push(116);
    out.push(101);
    out.push(114);
    out.push(110);
    out.push(66);
    out.push(97);
    out.push(115);
    out.push(101);
    out.push(100);
    proof {
        assert(final(out)@ =~= old(out)@ + lit_pattern_based());
    }
}

/// The decimal writing of a number, as the file image holds it.
pub open spec fn u_dec(v: nat) -> Seq<u8> {
    crate::digits::dec_bytes_of(crate::digits::digits_of(v))
}

/// The name a mode is written under.
pub open spec fn mode_name_bytes(m: GeneratorMode) -> Seq<u8> {
    match m {
        GeneratorMode::Sequential => lit_sequential(),
        GeneratorMode::SmartRandom => lit_smart_random(),
        GeneratorMode::PatternBased => lit_pattern_based(),
    }
}

/// An optional width: its decimal writing, or `null`.
pub open spec fn opt_usize_bytes(x: Option<usize>) -> Seq<u8> {
    match x {
        Some(d) => u_dec(d as nat),
        None => lit_null(),
    }
}

pub open spec fn bool_bytes(b: bool) -> Seq<u8> {
    if b {
        lit_true()
    } else {
        lit_false()
    }
}

/// A string's characters as the file image holds them, one byte each.
pub open spec fn string_image_bytes(s: Seq<char>) -> Seq<u8> {
    Seq::new(s.len(), |i: int| s[i] as u8)
}

/// The byte image of a saved configuration file: one JSON object holding
/// every field, numbers written in decimal, the mode by its name, and
/// the checkpoint path between quotes.
#[verifier::opaque]
pub open spec fn config_file_bytes(c: &HuntConfig) -> Seq<u8> {
    lit_obj_open() + u_dec(c.min_digits as nat) + lit_max_digits() + opt_usize_bytes(c.max_digits)
        + lit_target_iterations() + u_dec(c.target_iterations as nat) + lit_max_iterations()
        + u_dec(c.max_iterations as nat) + lit_target_final_digits() + u_dec(
        c.target_final_digits as nat,
    ) + lit_cache_size() + u_dec(c.cache_size as nat) + lit_generator_mode() + mode_name_bytes(
        c.generator_mode,
    ) + lit_checkpoint_interval() + u_dec(c.checkpoint_interval as nat) + lit_checkpoint_file()
        + string_image_bytes(c.checkpoint_file@) + lit_warmup() + bool_bytes(c.warmup)
        + lit_obj_close()
}

/// The bytes are exactly the file image of configuration `c`, and the
/// checkpoint path is written in plain characters: one byte each, none a
/// quote. `load_from_file` succeeds on every such image.
pub open spec fn parseable_image_of(bytes: Seq<u8>, c: &HuntConfig) -> bool {
    &&& bytes == config_file_bytes(c)
    &&& forall|i: int|
        0 <= i < c.checkpoint_file@.len() ==> (((#[trigger] c.checkpoint_file@[i]) as u8) < 128
            && (c.checkpoint_file@[i] as u8) != 34)
}

/// Appends the decimal writing of `v`.
fn push_u64_dec(out: &mut Vec<u8>, v: u64)
    ensures
        final(out)@ == old(out)@ + u_dec(v as nat),
{
    let big = BigDecimalInt::from_u64(v);
    proof {
        lemma_digits_of_seq_value(big@);
    }
    let mut bytes = big.to_decimal_bytes();
    out.append(&mut bytes);
}

/// Appends the characters of `s`, one byte each.
fn push_string_image(out: &mut Vec<u8>, s: &String)
    ensures
        final(out)@ == old(out)@ + string_image_bytes(s@),
{
    let n = s.as_str().unicode_len();
    let mut i: usize = 0;
    while i < n
        invariant
            n == s@.len(),
            i <= n,
            out@ == old(out)@ + string_image_bytes(s@).take(i as int),
        decreases n - i,
    {
        let c = s.as_str().get_char(i);
        out.push(c as u8);
        proof {
            assert(out@ =~= old(out)@ + string_image_bytes(s@).take(i + 1));
        }
        i += 1;
    }
    proof {
        assert(string_image_bytes(s@).take(n as int) =~= string_image_bytes(s@));
    }
}

/// The `k`-th slice of a configuration's file image.
#[verifier::opaque]
pub open spec fn image_piece(c: &HuntConfig, k: int) -> Seq<u8> {
    if k == 1 {
        lit_obj_open()
    } else
    if k == 2 {
        u_dec(c.min_digits as nat)
    } else
    if k == 3 {
        lit_max_digits()
    } else
    if k == 4 {
        opt_usize_bytes(c.max_digits)
    } else
    if k == 5 {
        lit_target_iterations()
    } else
    if k == 6 {
        u_dec(c.target_iterations as nat)
    } else
    if k == 7 {
        lit_max_iterations()
    } else
    if k == 8 {
        u_dec(c.max_iterations as nat)
    } else
    if k == 9 {
        lit_target_final_digits()
    } else
    if k == 10 {
        u_dec(c.target_final_digits as nat)
    } else
    if k == 11 {
        lit_cache_size()
    } else
    if k == 12 {
        u_dec(c.cache_size as nat)
    } else
    if k == 13 {
        lit_generator_mode()
    } else
    if k == 14 {
        mode_name_bytes(c.generator_mode)
    } else
    if k == 15 {
        lit_checkpoint_interval()
    } else
    if k == 16 {
        u_dec(c.checkpoint_interval as nat)
    } else
    if k == 17 {
        lit_checkpoint_file()
    } else
    if k == 18 {
        string_image_bytes(c.checkpoint_file@)
    } else
    if k == 19 {
        lit_warmup()
    } else
    if k == 20 {
        bool_bytes(c.warmup)
    } else
    if k == 21 {
        lit_obj_close()
    } else {
        Seq::empty()
    }
}

/// Where the `k`-th slice of the image ends.
pub open spec fn image_boundary(c: &HuntConfig, k: int) -> int
    decreases k,
{
    if k <= 0 {
        0
    } else {
        image_boundary(c, k - 1) + image_piece(c, k).len()
    }
}

/// The first `k` slices of the image, in order.
pub open spec fn image_prefix(c: &HuntConfig, k: int) -> Seq<u8>
    decreases k,
{
    if k <= 0 {
        Seq::empty()
    } else {
        image_prefix(c, k - 1) + image_piece(c, k)
    }
}

/// The whole image is its own twenty-one-slice prefix.
proof fn lemma_image_is_prefix(c: &HuntConfig)
    ensures
        config_file_bytes(c) == image_prefix(c, 21),
{
    reveal(config_file_bytes);
    reveal(image_piece);
    assert(image_prefix(c, 0) =~= Seq::<u8>::empty());
    assert(image_prefix(c, 1) =~= image_piece(c, 1));
    assert(image_prefix(c, 2) == image_prefix(c, 1) + image_piece(c, 2));
    assert(image_prefix(c, 3) == image_prefix(c, 2) + image_piece(c, 3));
    assert(image_prefix(c, 4) == image_prefix(c, 3) + image_piece(c, 4));
    assert(image_prefix(c, 5) == image_prefix(c, 4) + image_piece(c, 5));
    assert(image_prefix(c, 6) == image_prefix(c, 5) + image_piece(c, 6));
    assert(image_prefix(c, 7) == image_prefix(c, 6) + image_piece(c, 7));
    assert(image_prefix(c, 8) == image_prefix(c, 7) + image_piece(c, 8));
    assert(image_prefix(c, 9) == image_prefix(c, 8) + image_piece(c, 9));
    assert(image_prefix(c, 10) == image_prefix(c, 9) + image_piece(c, 10));
    assert(image_prefix(c, 11) == image_prefix(c, 10) + image_piece(c, 11));
    assert(image_prefix(c, 12) == image_prefix(c, 11) + image_piece(c, 12));
    assert(image_prefix(c, 13) == image_prefix(c, 12) + image_piece(c, 13));
    assert(image_prefix(c, 14) == image_prefix(c, 13) + image_piece(c, 14));
    assert(image_prefix(c, 15) == image_prefix(c, 14) + image_piece(c, 15));
    assert(image_prefix(c, 16) == image_prefix(c, 15) + image_piece(c, 16));
    assert(image_prefix(c, 17) == image_prefix(c, 16) + image_piece(c, 17));
    assert(image_prefix(c, 18) == image_prefix(c, 17) + image_piece(c, 18));
    assert(image_prefix(c, 19) == image_prefix(c, 18) + image_piece(c, 19));
    assert(image_prefix(c, 20) == image_prefix(c, 19) + image_piece(c, 20));
    assert(image_prefix(c, 21) == image_prefix(c, 20) + image_piece(c, 21));
}

/// Each prefix carries its boundary length and splits off its last
/// slice.
proof fn lemma_prefix_slice(c: &HuntConfig, k: int)
    requires
        1 <= k,
    ensures
        image_prefix(c, k).len() == image_boundary(c, k),
        0 <= image_boundary(c, k - 1) <= image_boundary(c, k),
        image_prefix(c, k).subrange(0, image_boundary(c, k - 1)) == image_prefix(c, k - 1),
        image_prefix(c, k).subrange(image_boundary(c, k - 1), image_boundary(c, k))
            == image_piece(c, k),
    decreases k,
{
    if k == 1 {
        assert(image_prefix(c, 0) == Seq::<u8>::empty());
        assert(image_boundary(c, 0) == 0);
        assert(image_prefix(c, 1).subrange(0, 0) =~= Seq::<u8>::empty());
        assert(image_prefix(c, 1).subrange(0, image_boundary(c, 1)) =~= image_piece(c, 1));
    } else {
        lemma_prefix_slice(c, k - 1);
        assert(image_prefix(c, k).subrange(0, image_boundary(c, k - 1)) =~= image_prefix(
            c,
            k - 1,
        ));
        assert(image_prefix(c, k).subrange(image_boundary(c, k - 1), image_boundary(c, k))
            =~= image_piece(c, k));
    }
}

/// A configuration's file image splits into its twenty-one slices at
/// the boundary positions.
proof fn lemma_image_pieces(bytes: Seq<u8>, c: &HuntConfig)
    requires
        bytes == config_file_bytes(c),
    ensures
        bytes.len() == image_boundary(c, 21),
        forall|k: int| 0 <= k <= 21 ==> 0 <= #[trigger] image_boundary(c, k)
            <= image_boundary(c, 21),
        forall|k: int| 1 <= k <= 21 ==> image_boundary(c, k - 1) <= #[trigger] image_boundary(
            c,
            k,
        ),
        bytes.subrange(image_boundary(c, 0), image_boundary(c, 1)) == lit_obj_open(),
        bytes.subrange(image_boundary(c, 1), image_boundary(c, 2)) == u_dec(c.min_digits as nat),
        bytes.subrange(image_boundary(c, 2), image_boundary(c, 3)) == lit_max_digits(),
        bytes.subrange(image_boundary(c, 3), image_boundary(c, 4)) == opt_usize_bytes(c.max_digits),
        bytes.subrange(image_boundary(c, 4), image_boundary(c, 5)) == lit_target_iterations(),
        bytes.subrange(image_boundary(c, 5), image_boundary(c, 6)) == u_dec(c.target_iterations as nat),
        bytes.subrange(image_boundary(c, 6), image_boundary(c, 7)) == lit_max_iterations(),
        bytes.subrange(image_boundary(c, 7), image_boundary(c, 8)) == u_dec(c.max_iterations as nat),
        bytes.subrange(image_boundary(c, 8), image_boundary(c, 9)) == lit_target_final_digits(),
        bytes.subrange(image_boundary(c, 9), image_boundary(c, 10)) == u_dec(c.target_final_digits as nat),
        bytes.subrange(image_boundary(c, 10), image_boundary(c, 11)) == lit_cache_size(),
        bytes.subrange(image_boundary(c, 11), image_boundary(c, 12)) == u_dec(c.cache_size as nat),
        bytes.subrange(image_boundary(c, 12), image_boundary(c, 13)) == lit_generator_mode(),
        bytes.subrange(image_boundary(c, 13), image_boundary(c, 14)) == mode_name_bytes(c.generator_mode),
        bytes.subrange(image_boundary(c, 14), image_boundary(c, 15)) == lit_checkpoint_interval(),
        bytes.subrange(image_boundary(c, 15), image_boundary(c, 16)) == u_dec(c.checkpoint_interval as nat),
        bytes.subrange(image_boundary(c, 16), image_boundary(c, 17)) == lit_checkpoint_file(),
        bytes.subrange(image_boundary(c, 17), image_boundary(c, 18)) == string_image_bytes(c.checkpoint_file@),
        bytes.subrange(image_boundary(c, 18), image_boundary(c, 19)) == lit_warmup(),
        bytes.subrange(image_boundary(c, 19), image_boundary(c, 20)) == bool_bytes(c.warmup),
        bytes.subrange(image_boundary(c, 20), image_boundary(c, 21)) == lit_obj_close(),
{
    reveal(image_piece);
    lemma_image_is_prefix(c);
    lemma_prefix_slice(c, 21);
    assert forall|k: int| 0 <= k <= 21 implies 0 <= #[trigger] image_boundary(c, k)
        <= image_boundary(c, 21) by {
        lemma_image_boundary_monotone(c, 0, k);
        lemma_image_boundary_monotone(c, k, 21);
    }
    assert forall|k: int| 1 <= k <= 21 implies image_boundary(c, k - 1)
        <= #[trigger] image_boundary(c, k) by {
        lemma_image_boundary_monotone(c, k - 1, k);
    }
    lemma_image_pieces_step(bytes, c, 1, 21);
    assert(image_piece(c, 1) == lit_obj_open());
    lemma_image_pieces_step(bytes, c, 2, 21);
    assert(image_piece(c, 2) == u_dec(c.min_digits as nat));
    lemma_image_pieces_step(bytes, c, 3, 21);
    assert(image_piece(c, 3) == lit_max_digits());
    lemma_image_pieces_step(bytes, c, 4, 21);
    assert(image_piece(c, 4) == opt_usize_bytes(c.max_digits));
    lemma_image_pieces_step(bytes, c, 5, 21);
    assert(image_piece(c, 5) == lit_target_iterations());
    lemma_image_pieces_step(bytes, c, 6, 21);
    assert(image_piece(c, 6) == u_dec(c.target_iterations as nat));
    lemma_image_pieces_step(bytes, c, 7, 21);
    assert(image_piece(c, 7) == lit_max_iterations());
    lemma_image_pieces_step(bytes, c, 8, 21);
    assert(image_piece(c, 8) == u_dec(c.max_iterations as nat));
    lemma_image_pieces_step(bytes, c, 9, 21);
    assert(image_piece(c, 9) == lit_target_final_digits());
    lemma_image_pieces_step(bytes, c, 10, 21);
    assert(image_piece(c, 10) == u_dec(c.target_final_digits as nat));
    lemma_image_pieces_step(bytes, c, 11, 21);
    assert(image_piece(c, 11) == lit_cache_size());
    lemma_image_pieces_step(bytes, c, 12, 21);
    assert(image_piece(c, 12) == u_dec(c.cache_size as nat));
    lemma_image_pieces_step(bytes, c, 13, 21);
    assert(image_piece(c, 13) == lit_generator_mode());
    lemma_image_pieces_step(bytes, c, 14, 21);
    assert(image_piece(c, 14) == mode_name_bytes(c.generator_mode));
    lemma_image_pieces_step(bytes, c, 15, 21);
    assert(image_piece(c, 15) == lit_checkpoint_interval());
    lemma_image_pieces_step(bytes, c, 16, 21);
    assert(image_piece(c, 16) == u_dec(c.checkpoint_interval as nat));
    lemma_image_pieces_step(bytes, c, 17, 21);
    assert(image_piece(c, 17) == lit_checkpoint_file());
    lemma_image_pieces_step(bytes, c, 18, 21);
    assert(image_piece(c, 18) == string_image_bytes(c.checkpoint_file@));
    lemma_image_pieces_step(bytes, c, 19, 21);
    assert(image_piece(c, 19) == lit_warmup());
    lemma_image_pieces_step(bytes, c, 20, 21);
    assert(image_piece(c, 20) == bool_bytes(c.warmup));
    lemma_image_pieces_step(bytes, c, 21, 21);
    assert(image_piece(c, 21) == lit_obj_close());
}

/// Any slice of a longer prefix reads the same as in the whole image.
proof fn lemma_image_pieces_step(bytes: Seq<u8>, c: &HuntConfig, k: int, hi: int)
    requires
        bytes == image_prefix(c, hi),
        1 <= k <= hi,
    ensures
        0 <= image_boundary(c, k - 1) <= image_boundary(c, k) <= bytes.len(),
        bytes.subrange(image_boundary(c, k - 1), image_boundary(c, k)) == image_piece(c, k),
    decreases hi,
{
    lemma_prefix_slice(c, hi);
    if k == hi {
    } else {
        lemma_image_pieces_step(image_prefix(c, hi - 1), c, k, hi - 1);
        lemma_image_boundary_monotone(c, k, hi - 1);
        lemma_image_boundary_monotone(c, 0, k - 1);
        assert(bytes.subrange(0, image_boundary(c, hi - 1)) == image_prefix(c, hi - 1));
        assert(bytes.subrange(image_boundary(c, k - 1), image_boundary(c, k)) =~= image_prefix(
            c,
            hi - 1,
        ).subrange(image_boundary(c, k - 1), image_boundary(c, k)));
    }
}

/// Boundaries grow with the slice index.
proof fn lemma_image_boundary_monotone(c: &HuntConfig, k1: int, k2: int)
    requires
        k1 <= k2,
    ensures
        image_boundary(c, k1) <= image_boundary(c, k2),
    decreases k2 - k1,
{
    if k1 < k2 {
        lemma_image_boundary_monotone(c, k1, k2 - 1);
    }
}

/// Bytes whose nine sections read as a configuration's sections are
/// exactly that configuration's file image.
#[verifier::rlimit(100)]
#[verifier::spinoff_prover]
proof fn lemma_loader_assembly(
    b: Seq<u8>,
    c: &HuntConfig,
    p6: int,
    p12: int,
    p16: int,
    p17: int,
    p18: int,
    p19: int,
    p20: int,
    p21: int,
)
    requires
        0 <= p6 <= p12 <= p16 <= p17 <= p18 <= p19 <= p20 <= p21,
        p21 == b.len(),
        b.subrange(0, p6) == lit_obj_open() + u_dec(c.min_digits as nat) + lit_max_digits()
            + opt_usize_bytes(c.max_digits) + lit_target_iterations() + u_dec(
            c.target_iterations as nat,
        ),
        b.subrange(p6, p12) == lit_max_iterations() + u_dec(c.max_iterations as nat)
            + lit_target_final_digits() + u_dec(c.target_final_digits as nat)
            + lit_cache_size() + u_dec(c.cache_size as nat),
        b.subrange(p12, p16) == lit_generator_mode() + mode_name_bytes(c.generator_mode)
            + lit_checkpoint_interval() + u_dec(c.checkpoint_interval as nat),
        b.subrange(p16, p17) == lit_checkpoint_file(),
        b.subrange(p17, p18) == string_image_bytes(c.checkpoint_file@),
        b.subrange(p18, p19) == lit_warmup(),
        b.subrange(p19, p20) == bool_bytes(c.warmup),
        b.subrange(p20, p21) == lit_obj_close(),
    ensures
        b == config_file_bytes(c),
{
    reveal(config_file_bytes);
    lemma_subrange_chain(b, 0, p6, p12);
    lemma_subrange_chain(b, 0, p12, p16);
    lemma_subrange_chain(b, 0, p16, p17);
    lemma_subrange_chain(b, 0, p17, p18);
    lemma_subrange_chain(b, 0, p18, p19);
    lemma_subrange_chain(b, 0, p19, p20);
    lemma_subrange_chain(b, 0, p20, p21);
    assert(b.subrange(0, p21) =~= b);
    assert(b =~= config_file_bytes(c));
}

/// A prefix splits at any interior point into its two slices.
proof fn lemma_subrange_chain(b: Seq<u8>, lo: int, mid: int, hi: int)
    requires
        0 <= lo <= mid <= hi <= b.len(),
    ensures
        b.subrange(lo, hi) == b.subrange(lo, mid) + b.subrange(mid, hi),
{
    assert(b.subrange(lo, hi) =~= b.subrange(lo, mid) + b.subrange(mid, hi));
}

/// Relies on `String::from_utf8`: bytes below 128 are valid UTF-8 and
/// decode to the characters with the same codes.
#[verifier::external_body]
fn ascii_bytes_to_string(bytes: Vec<u8>) -> (r: String)
    requires
        forall|i: int| 0 <= i < bytes@.len() ==> bytes@[i] < 128,
    ensures
        r@.len() == bytes@.len(),
        forall|i: int| 0 <= i < r@.len() ==> #[trigger] r@[i] == bytes@[i] as char,
{
    String::from_utf8(bytes).unwrap_or_default()
}

/// Advances past `expected` exactly when the bytes hold it at `pos`.
fn expect_bytes(bytes: &[u8], pos: usize, expected: &Vec<u8>) -> (r: Option<usize>)
    requires
        pos <= bytes@.len(),
    ensures
        r matches Some(p2) ==> p2 == pos + expected@.len() && p2 <= bytes@.len()
            && bytes@.subrange(pos as int, p2 as int) =~= expected@,
        (pos + expected@.len() <= bytes@.len() && bytes@.subrange(
            pos as int,
            pos + expected@.len(),
        ) == expected@) ==> r == Some((pos + expected@.len()) as usize),
{
    let n = expected.len();
    if n > bytes.len() - pos {
        return None;
    }
    let mut i: usize = 0;
    while i < n
        invariant
            n == expected@.len(),
            pos + n <= bytes@.len(),
            pos + n <= usize::MAX,
            i <= n,
            forall|j: int| 0 <= j < i ==> bytes@[pos + j] == expected@[j],
        decreases n - i,
    {
        if bytes[pos + i] != expected[i] {
            proof {
                if bytes@.subrange(pos as int, pos + expected@.len()) == expected@ {
                    assert(bytes@.subrange(pos as int, pos + expected@.len())[i as int]
                        == bytes@[pos + i]);
                }
            }
            return None;
        }
        i += 1;
    }
    Some(pos + n)
}

/// A digit run with no leading zero writes its own value back.
proof fn lemma_dec_bytes_left_inverse(b: Seq<u8>)
    requires
        crate::digits::valid_dec_bytes(b),
        b.len() > 1 ==> b[0] != 48,
    ensures
        crate::digits::dec_bytes_of(
            crate::digits::trim(crate::digits::digits_from_dec_bytes(b)),
        ) == b,
{
    let s = crate::digits::digits_from_dec_bytes(b);
    assert(crate::digits::all_digits(s));
    if b.len() == 1 && b[0] == 48 {
        assert(s =~= seq![0u8]);
        assert(crate::digits::trim(s) == crate::digits::trim(s.drop_last()));
        assert(s.drop_last() =~= Seq::<u8>::empty());
        assert(crate::digits::trim(s) =~= Seq::<u8>::empty());
        assert(crate::digits::dec_bytes_of(crate::digits::trim(s)) =~= b);
    } else {
        assert(b[0] != 48);
        assert(s[s.len() - 1] == (b[0] - 48) as u8);
        assert(s[s.len() - 1] != 0);
        assert(crate::digits::canonical(s));
        crate::digits::lemma_trim_canonical(s);
        assert(crate::digits::trim(s) == s);
        assert(crate::digits::dec_bytes_of(s) =~= b);
    }
}

/// The bytes hold the canonical decimal writing of `v` at `pos`, with
/// no digit following it.
pub open spec fn dec_run_at(bytes: Seq<u8>, pos: int, v: nat) -> bool {
    &&& pos + u_dec(v).len() <= bytes.len()
    &&& bytes.subrange(pos, pos + u_dec(v).len() as int) == u_dec(v)
    &&& (pos + u_dec(v).len() == bytes.len() || !(48 <= bytes[pos + u_dec(v).len() as int]
        <= 57))
}

/// What the canonical decimal writing of a number looks like: nonempty
/// decimal digits, led by a zero only for zero itself.
proof fn lemma_u_dec_shape(v: nat)
    ensures
        crate::digits::valid_dec_bytes(u_dec(v)),
        u_dec(v).len() >= 1,
        u_dec(v).len() > 1 ==> u_dec(v)[0] != 48,
        crate::digits::trim(crate::digits::digits_from_dec_bytes(u_dec(v)))
            == crate::digits::digits_of(v),
        crate::digits::seq_value(crate::digits::digits_of(v)) == v,
{
    let s = crate::digits::digits_of(v);
    crate::digits::lemma_digits_of_canonical(v);
    crate::digits::lemma_digits_of_value(v);
    crate::digits::lemma_dec_bytes_round_trip(s);
    if s.len() > 0 {
        assert(u_dec(v)[0] == s[s.len() - 1] + 48);
    }
}

/// Reads a decimal number written canonically (no leading zero) at
/// `pos`; hands back its value and the position after it. Succeeds on
/// exactly the canonical digit runs whose value fits a machine word.
fn parse_u64_dec(bytes: &[u8], pos: usize) -> (r: Option<(u64, usize)>)
    ensures
        r matches Some((v, p2)) ==> pos <= p2 <= bytes@.len() && bytes@.subrange(
            pos as int,
            p2 as int,
        ) == u_dec(v as nat),
        forall|v: u64|
            #![trigger dec_run_at(bytes@, pos as int, v as nat)]
            dec_run_at(bytes@, pos as int, v as nat) ==> r == Some(
                (v, (pos + u_dec(v as nat).len()) as usize),
            ),
{
    let n = bytes.len();
    if pos >= n {
        proof {
            assert forall|v: u64| !dec_run_at(bytes@, pos as int, v as nat) by {
                lemma_u_dec_shape(v as nat);
            }
        }
        return None;
    }
    let mut end: usize = pos;
    while end < n && bytes[end] >= 48 && bytes[end] <= 57
        invariant
            pos <= end <= n,
            n == bytes@.len(),
            forall|j: int| pos <= j < end ==> 48 <= #[trigger] bytes@[j] <= 57,
        decreases n - end,
    {
        end += 1;
    }
    proof {
        assert forall|v: u64| dec_run_at(bytes@, pos as int, v as nat) implies end == pos
            + u_dec(v as nat).len() by {
            lemma_u_dec_shape(v as nat);
            let ll = u_dec(v as nat).len() as int;
            assert forall|j: int| pos <= j < pos + ll implies 48 <= #[trigger] bytes@[j]
                <= 57 by {
                assert(bytes@.subrange(pos as int, pos + ll)[j - pos] == bytes@[j]);
            }
            if end < pos + ll {
                assert(48 <= bytes@[end as int] <= 57);
            }
            if end > pos + ll {
                assert(48 <= bytes@[pos + ll] <= 57);
            }
        }
    }
    if end == pos {
        proof {
            assert forall|v: u64| !dec_run_at(bytes@, pos as int, v as nat) by {
                lemma_u_dec_shape(v as nat);
            }
        }
        return None;
    }
    if end - pos > 1 && bytes[pos] == 48 {
        proof {
            assert forall|v: u64| !dec_run_at(bytes@, pos as int, v as nat) by {
                lemma_u_dec_shape(v as nat);
                if dec_run_at(bytes@, pos as int, v as nat) {
                    let ll = u_dec(v as nat).len() as int;
                    assert(bytes@.subrange(pos as int, pos + ll)[0] == bytes@[pos as int]);
                    assert(u_dec(v as nat)[0] == 48);
                }
            }
        }
        return None;
    }
    let mut run: Vec<u8> = Vec::new();
    let mut i: usize = pos;
    while i < end
        invariant
            pos <= i <= end <= n,
            n == bytes@.len(),
            run@.len() == i - pos,
            forall|j: int| 0 <= j < i - pos ==> run@[j] == bytes@[pos + j],
        decreases end - i,
    {
        run.push(bytes[i]);
        i += 1;
    }
    proof {
        assert(run@ =~= bytes@.subrange(pos as int, end as int));
        assert(crate::digits::all_digits(
            crate::digits::digits_from_dec_bytes(run@),
        ));
    }
    let number = match BigDecimalInt::from_decimal_bytes(&run) {
        Some(number) => number,
        None => {
            proof {
                assert forall|v: u64| !dec_run_at(bytes@, pos as int, v as nat) by {
                    lemma_u_dec_shape(v as nat);
                    if dec_run_at(bytes@, pos as int, v as nat) {
                        assert(run@ == u_dec(v as nat));
                        assert(crate::digits::valid_dec_bytes(run@));
                    }
                }
            }
            return None;
        },
    };
    let value = match number.to_u64() {
        Some(v) => v,
        None => {
            proof {
                assert forall|v: u64| !dec_run_at(bytes@, pos as int, v as nat) by {
                    lemma_u_dec_shape(v as nat);
                    if dec_run_at(bytes@, pos as int, v as nat) {
                        assert(run@ == u_dec(v as nat));
                        assert(number@ == crate::digits::trim(
                            crate::digits::digits_from_dec_bytes(u_dec(v as nat)),
                        ));
                        assert(number.value() == v);
                    }
                }
            }
            return None;
        },
    };
    proof {
        lemma_dec_bytes_left_inverse(run@);
        lemma_digits_of_seq_value(number@);
        assert(u_dec(value as nat) == crate::digits::dec_bytes_of(number@));
        assert forall|v: u64| dec_run_at(bytes@, pos as int, v as nat) implies Some(
            (value, end),
        ) == Some((v, (pos + u_dec(v as nat).len()) as usize)) by {
            lemma_u_dec_shape(v as nat);
            assert(run@ == u_dec(v as nat));
            assert(number@ == crate::digits::trim(
                crate::digits::digits_from_dec_bytes(u_dec(v as nat)),
            ));
            assert(number.value() == v);
            assert(value == v);
        }
    }
    Some((value, end))
}

/// The bytes hold the one-byte image of the characters `s` at `pos`,
/// closed by a quote; every character's byte is below 128 and is not
/// itself a quote.
pub open spec fn quoted_run_at(bytes: Seq<u8>, pos: int, s: Seq<char>) -> bool {
    &&& pos + s.len() + 1 <= bytes.len()
    &&& bytes.subrange(pos, pos + s.len() as int) == string_image_bytes(s)
    &&& bytes[pos + s.len() as int] == 34
    &&& forall|i: int| 0 <= i < s.len() ==> ((#[trigger] s[i]) as u8) < 128 && (s[i] as u8)
        != 34
}

/// Reads the characters between `pos` and the next quote; only bytes
/// below 128 are accepted. Hands back the text and the position of the
/// closing quote; succeeds on every quote-closed run of such bytes.
fn parse_quoted_ascii(bytes: &[u8], pos: usize) -> (r: Option<(String, usize)>)
    requires
        pos <= bytes@.len(),
    ensures
        r matches Some((s, p2)) ==> pos <= p2 <= bytes@.len() && bytes@.subrange(
            pos as int,
            p2 as int,
        ) =~= string_image_bytes(s@),
        forall|s: Seq<char>|
            #![trigger quoted_run_at(bytes@, pos as int, s)]
            quoted_run_at(bytes@, pos as int, s) ==> (r matches Some((t, p2)) && p2 == pos
                + s.len()),
{
    let n = bytes.len();
    let mut end: usize = pos;
    while end < n && bytes[end] != 34
        invariant
            pos <= end <= n,
            n == bytes@.len(),
            forall|j: int| pos <= j < end ==> #[trigger] bytes@[j] != 34,
        decreases n - end,
    {
        end += 1;
    }
    proof {
        assert forall|s: Seq<char>| quoted_run_at(bytes@, pos as int, s) implies end == pos
            + s.len() by {
            let ll = s.len() as int;
            assert forall|j: int| pos <= j < pos + ll implies #[trigger] bytes@[j] != 34 by {
                assert(bytes@.subrange(pos as int, pos + ll)[j - pos] == bytes@[j]);
                assert(string_image_bytes(s)[j - pos] == s[j - pos] as u8);
            }
            if end < pos + ll {
                assert(bytes@[end as int] != 34);
            }
            if end > pos + ll {
                assert(bytes@[pos + ll] == 34);
                assert(bytes@[pos + ll] != 34);
            }
        }
    }
    if end == n {
        proof {
            assert forall|s: Seq<char>| !quoted_run_at(bytes@, pos as int, s) by {
                if quoted_run_at(bytes@, pos as int, s) {
                    assert(end == pos + s.len());
                    assert(pos + s.len() < bytes@.len());
                }
            }
        }
        return None;
    }
    let mut run: Vec<u8> = Vec::new();
    let mut i: usize = pos;
    while i < end
        invariant
            pos <= i <= end <= n,
            end < n,
            n == bytes@.len(),
            bytes@[end as int] == 34,
            run@.len() == i - pos,
            forall|j: int| pos <= j < end ==> #[trigger] bytes@[j] != 34,
            forall|j: int| 0 <= j < i - pos ==> #[trigger] run@[j] == bytes@[pos + j]
                && run@[j] < 128,
        decreases end - i,
    {
        let b = bytes[i];
        if b >= 128 {
            proof {
                assert forall|s: Seq<char>| !quoted_run_at(bytes@, pos as int, s) by {
                    if quoted_run_at(bytes@, pos as int, s) {
                        let ll = s.len() as int;
                        assert forall|j: int| pos <= j < pos + ll implies #[trigger] bytes@[j]
                            != 34 by {
                            assert(bytes@.subrange(pos as int, pos + ll)[j - pos]
                                == bytes@[j]);
                            assert(string_image_bytes(s)[j - pos] == s[j - pos] as u8);
                        }
                        if end < pos + ll {
                            assert(bytes@[end as int] != 34);
                        }
                        if end > pos + ll {
                            assert(bytes@[pos + ll] == 34);
                        }
                        assert(end == pos + ll);
                        assert(bytes@.subrange(pos as int, pos + ll)[i - pos] == bytes@[
                            i as int]);
                        assert(string_image_bytes(s)[i - pos] == s[i - pos] as u8);
                        assert(bytes@[i as int] < 128);
                    }
                }
            }
            return None;
        }
        run.push(b);
        i += 1;
    }
    let ghost run_snapshot = run@;
    let text = ascii_bytes_to_string(run);
    proof {
        assert(string_image_bytes(text@) =~= run_snapshot);
        assert(bytes@.subrange(pos as int, end as int) =~= run_snapshot);
    }
    Some((text, end))
}

impl HuntConfig {
    /// The opening of a configuration image: the first six slices,
    /// through `target_iterations`.
    #[verifier::rlimit(100)]
    #[verifier::spinoff_prover]
    fn load_header_a(bytes: &[u8], Ghost(cg): Ghost<HuntConfig>) -> (r: Option<
        (u64, Option<usize>, u64, usize),
    >)
        ensures
            r matches Some(t) ==> t.3 <= bytes@.len() && bytes@.subrange(0, t.3 as int)
                == lit_obj_open() + u_dec(t.0 as nat) + lit_max_digits() + opt_usize_bytes(t.1)
                + lit_target_iterations() + u_dec(t.2 as nat) && t.0 <= usize::MAX && t.2
                <= u32::MAX,
            parseable_image_of(bytes@, &cg) ==> r == Some(
                (
                    cg.min_digits as u64,
                    cg.max_digits,
                    cg.target_iterations as u64,
                    image_boundary(&cg, 6) as usize,
                ),
            ),
    {
        let ghost complete = parseable_image_of(bytes@, &cg);
        let ghost c0: HuntConfig = cg;
        proof {
            if complete {
                lemma_image_pieces(bytes@, &c0);
            }
        }
        let mut chunk: Vec<u8> = Vec::new();
        proof {
            assert(chunk@ =~= Seq::<u8>::empty());
        }
        push_chunk_lit_obj_open(&mut chunk);
        proof {
            if complete {
                assert(chunk@ == lit_obj_open());
            }
        }
        let p1 = match expect_bytes(bytes, 0, &chunk) {
            Some(p) => p,
            None => {
                proof {
                    if complete {
                        assert(false);
                    }
                }
                return None;
            },
        };
        proof {
            if complete {
                assert(p1 == image_boundary(&c0, 1));
            }
        }
        proof {
            if complete {
                lemma_u_dec_shape(c0.min_digits as nat);
                assert(bytes@.subrange(
                    image_boundary(&c0, 2),
                    image_boundary(&c0, 3),
                ) == lit_max_digits());
                assert(image_boundary(&c0, 3) - image_boundary(&c0, 2) == lit_max_digits().len());
                assert(bytes@.subrange(
                    image_boundary(&c0, 2),
                    image_boundary(&c0, 3),
                )[0] == bytes@[image_boundary(&c0, 2)]);
                assert(!(48 <= bytes@[image_boundary(&c0, 2)] <= 57));
                assert(dec_run_at(bytes@, p1 as int, ((c0.min_digits as u64) as nat)));
            }
        }
        let (min_digits_v, p2) = match parse_u64_dec(bytes, p1) {
            Some(x) => x,
            None => {
                proof {
                    if complete {
                        assert(false);
                    }
                }
                return None;
            },
        };
        proof {
            if complete {
                assert(min_digits_v == c0.min_digits as u64);
                assert(p2 == image_boundary(&c0, 2));
            }
        }
        if min_digits_v > usize::MAX as u64 {
            proof {
                if complete {
                    assert(false);
                }
            }
            return None;
        }

        chunk.clear();
        push_chunk_lit_max_digits(&mut chunk);
        proof {
            if complete {
                assert(chunk@ == lit_max_digits());
            }
        }
        let p3 = match expect_bytes(bytes, p2, &chunk) {
            Some(p) => p,
            None => {
                proof {
                    if complete {
                        assert(false);
                    }
                }
                return None;
            },
        };
        proof {
            if complete {
                assert(p3 == image_boundary(&c0, 3));
            }
        }
        chunk.clear();
        push_chunk_lit_null(&mut chunk);
        proof {
            if complete {
                if c0.max_digits is None {
                } else {
                    let d = c0.max_digits->0;
                    lemma_u_dec_shape(d as nat);
                    assert(bytes@.subrange(
                    image_boundary(&c0, 4),
                    image_boundary(&c0, 5),
                ) == lit_target_iterations());
                assert(image_boundary(&c0, 5) - image_boundary(&c0, 4) == lit_target_iterations().len());
                assert(bytes@.subrange(
                    image_boundary(&c0, 4),
                    image_boundary(&c0, 5),
                )[0] == bytes@[image_boundary(&c0, 4)]);
                assert(!(48 <= bytes@[image_boundary(&c0, 4)] <= 57));
                    assert(dec_run_at(bytes@, p3 as int, ((d as u64) as nat)));
                }
            }
        }
        let (max_digits, p4) = match expect_bytes(bytes, p3, &chunk) {
            Some(p) => {
                proof {
                    if complete {
                        if c0.max_digits is Some {
                            let d = c0.max_digits->0;
                            assert(bytes@.subrange(p3 as int, p3 + 4)[0] == bytes@[p3 as int]);
                            assert(bytes@.subrange(
                                image_boundary(&c0, 3),
                                image_boundary(&c0, 4),
                            )[0] == bytes@[p3 as int]);
                            assert(crate::digits::valid_dec_bytes(u_dec(d as nat)));
                            assert(false);
                        }
                        assert(p == image_boundary(&c0, 4));
                    }
                }
                (None, p)
            },
            None => {
                match parse_u64_dec(bytes, p3) {
                    Some((v, p)) => {
                        proof {
                            if complete {
                                if c0.max_digits is None {
                                    assert(false);
                                }
                                assert(v == c0.max_digits->0 as u64);
                                assert(p == image_boundary(&c0, 4));
                            }
                        }
                        if v > usize::MAX as u64 {
                            proof {
                                if complete {
                                    assert(false);
                                }
                            }
                            return None;
                        }
                        (Some(v as usize), p)
                    },
                    None => {
                        proof {
                            if complete {
                                assert(false);
                            }
                        }
                        return None;
                    },
                }
            },
        };
        chunk.clear();
        push_chunk_lit_target_iterations(&mut chunk);
        proof {
            if complete {
                assert(chunk@ == lit_target_iterations());
            }
        }
        let p5 = match expect_bytes(bytes, p4, &chunk) {
            Some(p) => p,
            None => {
                proof {
                    if complete {
                        assert(false);
                    }
                }
                return None;
            },
        };
        proof {
            if complete {
                assert(p5 == image_boundary(&c0, 5));
            }
        }
        proof {
            if complete {
                lemma_u_dec_shape(c0.target_iterations as nat);
                assert(bytes@.subrange(
                    image_boundary(&c0, 6),
                    image_boundary(&c0, 7),
                ) == lit_max_iterations());
                assert(image_boundary(&c0, 7) - image_boundary(&c0, 6) == lit_max_iterations().len());
                assert(bytes@.subrange(
                    image_boundary(&c0, 6),
                    image_boundary(&c0, 7),
                )[0] == bytes@[image_boundary(&c0, 6)]);
                assert(!(48 <= bytes@[image_boundary(&c0, 6)] <= 57));
                assert(dec_run_at(bytes@, p5 as int, ((c0.target_iterations as u64) as nat)));
            }
        }
        let (target_iterations_v, p6) = match parse_u64_dec(bytes, p5) {
            Some(x) => x,
            None => {
                proof {
                    if complete {
                        assert(false);
                    }
                }
                return None;
            },
        };
        proof {
            if complete {
                assert(target_iterations_v == c0.target_iterations as u64);
                assert(p6 == image_boundary(&c0, 6));
            }
        }
        if target_iterations_v > u32::MAX as u64 {
            proof {
                if complete {
                    assert(false);
                }
            }
            return None;
        }
        proof {
            let b = bytes@;
            lemma_subrange_chain(b, 0, p1 as int, p2 as int);
            lemma_subrange_chain(b, 0, p2 as int, p3 as int);
            lemma_subrange_chain(b, 0, p3 as int, p4 as int);
            lemma_subrange_chain(b, 0, p4 as int, p5 as int);
            lemma_subrange_chain(b, 0, p5 as int, p6 as int);
            assert(b.subrange(0, p6 as int) =~= lit_obj_open() + u_dec(min_digits_v as nat)
                + lit_max_digits() + opt_usize_bytes(max_digits) + lit_target_iterations()
                + u_dec(target_iterations_v as nat));
        }
        Some((min_digits_v, max_digits, target_iterations_v, p6))
    }

    /// The numeric middle of a configuration image: slices seven through
    /// twelve, `max_iterations` through `cache_size`, read from `pos`.
    #[verifier::rlimit(100)]
    #[verifier::spinoff_prover]
    fn load_header_b(bytes: &[u8], pos: usize, Ghost(cg): Ghost<HuntConfig>) -> (r: Option<
        (u64, u64, u64, usize),
    >)
        requires
            pos <= bytes@.len(),
        ensures
            r matches Some(t) ==> pos <= t.3 <= bytes@.len() && bytes@.subrange(
                pos as int,
                t.3 as int,
            ) == lit_max_iterations() + u_dec(t.0 as nat) + lit_target_final_digits() + u_dec(
                t.1 as nat,
            ) + lit_cache_size() + u_dec(t.2 as nat) && t.0 <= u32::MAX && t.1 <= usize::MAX
                && t.2 <= usize::MAX,
            (parseable_image_of(bytes@, &cg) && pos == image_boundary(&cg, 6)) ==> r == Some(
                (
                    cg.max_iterations as u64,
                    cg.target_final_digits as u64,
                    cg.cache_size as u64,
                    image_boundary(&cg, 12) as usize,
                ),
            ),
    {
        let ghost complete = parseable_image_of(bytes@, &cg) && pos == image_boundary(&cg, 6);
        let ghost c0: HuntConfig = cg;
        proof {
            if complete {
                lemma_image_pieces(bytes@, &c0);
            }
        }
        let ghost p6 = pos;
        let mut chunk: Vec<u8> = Vec::new();
        proof {
            assert(chunk@ =~= Seq::<u8>::empty());
            if complete {
                assert(p6 == image_boundary(&c0, 6));
            }
        }

        push_chunk_lit_max_iterations(&mut chunk);
        proof {
            if complete {
                assert(chunk@ == lit_max_iterations());
            }
        }
        let p7 = match expect_bytes(bytes, pos, &chunk) {
            Some(p) => p,
            None => {
                proof {
                    if complete {
                        assert(false);
                    }
                }
                return None;
            },
        };
        proof {
            if complete {
                assert(p7 == image_boundary(&c0, 7));
            }
        }
        proof {
            if complete {
                lemma_u_dec_shape(c0.max_iterations as nat);
                assert(bytes@.subrange(
                    image_boundary(&c0, 8),
                    image_boundary(&c0, 9),
                ) == lit_target_final_digits());
                assert(image_boundary(&c0, 9) - image_boundary(&c0, 8) == lit_target_final_digits().len());
                assert(bytes@.subrange(
                    image_boundary(&c0, 8),
                    image_boundary(&c0, 9),
                )[0] == bytes@[image_boundary(&c0, 8)]);
                assert(!(48 <= bytes@[image_boundary(&c0, 8)] <= 57));
                assert(dec_run_at(bytes@, p7 as int, ((c0.max_iterations as u64) as nat)));
            }
        }
        let (max_iterations_v, p8) = match parse_u64_dec(bytes, p7) {
            Some(x) => x,
            None => {
                proof {
                    if complete {
                        assert(false);
                    }
                }
                return None;
            },
        };
        proof {
            if complete {
                assert(max_iterations_v == c0.max_iterations as u64);
                assert(p8 == image_boundary(&c0, 8));
            }
        }
        if max_iterations_v > u32::MAX as u64 {
            proof {
                if complete {
                    assert(false);
                }
            }
            return None;
        }

        chunk.clear();
        push_chunk_lit_target_final_digits(&mut chunk);
        proof {
            if complete {
                assert(chunk@ == lit_target_final_digits());
            }
        }
        let p9 = match expect_bytes(bytes, p8, &chunk) {
            Some(p) => p,
            None => {
                proof {
                    if complete {
                        assert(false);
                    }
                }
                return None;
            },
        };
        proof {
            if complete {
                assert(p9 == image_boundary(&c0, 9));
            }
        }
        proof {
            if complete {
                lemma_u_dec_shape(c0.target_final_digits as nat);
                assert(bytes@.subrange(
                    image_boundary(&c0, 10),
                    image_boundary(&c0, 11),
                ) == lit_cache_size());
                assert(image_boundary(&c0, 11) - image_boundary(&c0, 10) == lit_cache_size().len());
                assert(bytes@.subrange(
                    image_boundary(&c0, 10),
                    image_boundary(&c0, 11),
                )[0] == bytes@[image_boundary(&c0, 10)]);
                assert(!(48 <= bytes@[image_boundary(&c0, 10)] <= 57));
                assert(dec_run_at(bytes@, p9 as int, ((c0.target_final_digits as u64) as nat)));
            }
        }
        let (target_final_digits_v, p10) = match parse_u64_dec(bytes, p9) {
            Some(x) => x,
            None => {
                proof {
                    if complete {
                        assert(false);
                    }
                }
                return None;
            },
        };
        proof {
            if complete {
                assert(target_final_digits_v == c0.target_final_digits as u64);
                assert(p10 == image_boundary(&c0, 10));
            }
        }
        if target_final_digits_v > usize::MAX as u64 {
            proof {
                if complete {
                    assert(false);
                }
            }
            return None;
        }

        chunk.clear();
        push_chunk_lit_cache_size(&mut chunk);
        proof {
            if complete {
                assert(chunk@ == lit_cache_size());
            }
        }
        let p11 = match expect_bytes(bytes, p10, &chunk) {
            Some(p) => p,
            None => {
                proof {
                    if complete {
                        assert(false);
                    }
                }
                return None;
            },
        };
        proof {
            if complete {
                assert(p11 == image_boundary(&c0, 11));
            }
        }
        proof {
            if complete {
                lemma_u_dec_shape(c0.cache_size as nat);
                assert(bytes@.subrange(
                    image_boundary(&c0, 12),
                    image_boundary(&c0, 13),
                ) == lit_generator_mode());
                assert(image_boundary(&c0, 13) - image_boundary(&c0, 12) == lit_generator_mode().len());
                assert(bytes@.subrange(
                    image_boundary(&c0, 12),
                    image_boundary(&c0, 13),
                )[0] == bytes@[image_boundary(&c0, 12)]);
                assert(!(48 <= bytes@[image_boundary(&c0, 12)] <= 57));
                assert(dec_run_at(bytes@, p11 as int, ((c0.cache_size as u64) as nat)));
            }
        }
        let (cache_size_v, p12) = match parse_u64_dec(bytes, p11) {
            Some(x) => x,
            None => {
                proof {
                    if complete {
                        assert(false);
                    }
                }
                return None;
            },
        };
        proof {
            if complete {
                assert(cache_size_v == c0.cache_size as u64);
                assert(p12 == image_boundary(&c0, 12));
            }
        }
        if cache_size_v > usize::MAX as u64 {
            proof {
                if complete {
                    assert(false);
                }
            }
            return None;
        }

        proof {
            let b = bytes@;
            lemma_subrange_chain(b, pos as int, p7 as int, p8 as int);
            lemma_subrange_chain(b, pos as int, p8 as int, p9 as int);
            lemma_subrange_chain(b, pos as int, p9 as int, p10 as int);
            lemma_subrange_chain(b, pos as int, p10 as int, p11 as int);
            lemma_subrange_chain(b, pos as int, p11 as int, p12 as int);
            assert(b.subrange(pos as int, p12 as int) =~= lit_max_iterations() + u_dec(
                max_iterations_v as nat,
            ) + lit_target_final_digits() + u_dec(target_final_digits_v as nat)
                + lit_cache_size() + u_dec(cache_size_v as nat));
        }
        Some((max_iterations_v, target_final_digits_v, cache_size_v, p12))
    }

    /// The mode and interval slices of a configuration image: slices
    /// thirteen through sixteen, read from `pos`.
    #[verifier::rlimit(100)]
    #[verifier::spinoff_prover]
    fn load_tail_modes(bytes: &[u8], pos: usize, Ghost(cg): Ghost<HuntConfig>) -> (r: Option<
        (GeneratorMode, u64, usize),
    >)
        requires
            pos <= bytes@.len(),
        ensures
            r matches Some(t) ==> pos <= t.2 <= bytes@.len() && bytes@.subrange(
                pos as int,
                t.2 as int,
            ) == lit_generator_mode() + mode_name_bytes(t.0) + lit_checkpoint_interval()
                + u_dec(t.1 as nat),
            (parseable_image_of(bytes@, &cg) && pos == image_boundary(&cg, 12)) ==> r == Some(
                (cg.generator_mode, cg.checkpoint_interval, image_boundary(&cg, 16) as usize),
            ),
    {
        let ghost complete = parseable_image_of(bytes@, &cg) && pos == image_boundary(&cg, 12);
        let ghost c0: HuntConfig = cg;
        proof {
            if complete {
                lemma_image_pieces(bytes@, &c0);
            }
        }
        let ghost p12 = pos;
        let mut chunk: Vec<u8> = Vec::new();
        proof {
            assert(chunk@ =~= Seq::<u8>::empty());
            if complete {
                assert(p12 == image_boundary(&c0, 12));
            }
        }
        push_chunk_lit_generator_mode(&mut chunk);
        let p13 = match expect_bytes(bytes, pos, &chunk) {
            Some(p) => p,
            None => {
                proof {
                    if complete {
                        assert(false);
                    }
                }
                return None;
            },
        };
        proof {
            if complete {
                assert(p13 == image_boundary(&c0, 13));
            }
        }
        proof {
            if complete {
                assert(bytes@.subrange(
                    image_boundary(&c0, 13),
                    image_boundary(&c0, 14),
                ) == mode_name_bytes(c0.generator_mode));
                assert(image_boundary(&c0, 14) - image_boundary(&c0, 13) == mode_name_bytes(
                    c0.generator_mode,
                ).len());
                assert(mode_name_bytes(c0.generator_mode).len() >= 2);
                assert(bytes@.subrange(
                    image_boundary(&c0, 13),
                    image_boundary(&c0, 14),
                )[0] == bytes@[p13 as int]);
                if c0.generator_mode != GeneratorMode::Sequential {
                    assert(bytes@.subrange(
                        image_boundary(&c0, 13),
                        image_boundary(&c0, 14),
                    )[1] == bytes@[p13 + 1]);
                }
            }
        }
        chunk.clear();
        push_chunk_lit_sequential(&mut chunk);
        let mut alt: Vec<u8> = Vec::new();
        push_chunk_lit_smart_random(&mut alt);
        let mut alt2: Vec<u8> = Vec::new();
        push_chunk_lit_pattern_based(&mut alt2);
        let (generator_mode, p14) = match expect_bytes(bytes, p13, &chunk) {
            Some(p) => {
                proof {
                    if complete {
                        if c0.generator_mode != GeneratorMode::Sequential {
                            assert(bytes@.subrange(p13 as int, p13 + 10)[1] == bytes@[p13 + 1]);
                            assert(false);
                        }
                        assert(p == image_boundary(&c0, 14));
                    }
                }
                (GeneratorMode::Sequential, p)
            },
            None => {
                match expect_bytes(bytes, p13, &alt) {
                    Some(p) => {
                        proof {
                            if complete {
                                if c0.generator_mode == GeneratorMode::Sequential {
                                    assert(false);
                                }
                                if c0.generator_mode == GeneratorMode::PatternBased {
                                    assert(bytes@.subrange(p13 as int, p13 + 11)[0] == bytes@[
                                        p13 as int]);
                                    assert(false);
                                }
                                assert(p == image_boundary(&c0, 14));
                            }
                        }
                        (GeneratorMode::SmartRandom, p)
                    },
                    None => {
                        match expect_bytes(bytes, p13, &alt2) {
                            Some(p) => {
                                proof {
                                    if complete {
                                        if c0.generator_mode == GeneratorMode::Sequential {
                                            assert(false);
                                        }
                                        if c0.generator_mode == GeneratorMode::SmartRandom {
                                            assert(false);
                                        }
                                        assert(p == image_boundary(&c0, 14));
                                    }
                                }
                                (GeneratorMode::PatternBased, p)
                            },
                            None => {
                                proof {
                                    if complete {
                                        assert(false);
                                    }
                                }
                                return None;
                            },
                        }
                    },
                }
            },
        };
        chunk.clear();
        push_chunk_lit_checkpoint_interval(&mut chunk);
        proof {
            if complete {
                assert(chunk@ == lit_checkpoint_interval());
            }
        }
        let p15 = match expect_bytes(bytes, p14, &chunk) {
            Some(p) => p,
            None => {
                proof {
                    if complete {
                        assert(false);
                    }
                }
                return None;
            },
        };
        proof {
            if complete {
                assert(p15 == image_boundary(&c0, 15));
            }
        }
        proof {
            if complete {
                lemma_u_dec_shape(c0.checkpoint_interval as nat);
                assert(bytes@.subrange(
                    image_boundary(&c0, 16),
                    image_boundary(&c0, 17),
                ) == lit_checkpoint_file());
                assert(image_boundary(&c0, 17) - image_boundary(&c0, 16) == lit_checkpoint_file().len());
                assert(bytes@.subrange(
                    image_boundary(&c0, 16),
                    image_boundary(&c0, 17),
                )[0] == bytes@[image_boundary(&c0, 16)]);
                assert(!(48 <= bytes@[image_boundary(&c0, 16)] <= 57));
                assert(dec_run_at(bytes@, p15 as int, ((c0.checkpoint_interval as u64) as nat)));
            }
        }
        let (checkpoint_interval, p16) = match parse_u64_dec(bytes, p15) {
            Some(x) => x,
            None => {
                proof {
                    if complete {
                        assert(false);
                    }
                }
                return None;
            },
        };
        proof {
            if complete {
                assert(checkpoint_interval == c0.checkpoint_interval as u64);
                assert(p16 == image_boundary(&c0, 16));
            }
        }

        proof {
            let b = bytes@;
            lemma_subrange_chain(b, pos as int, p13 as int, p14 as int);
            lemma_subrange_chain(b, pos as int, p14 as int, p15 as int);
            lemma_subrange_chain(b, pos as int, p15 as int, p16 as int);
            assert(b.subrange(pos as int, p16 as int) =~= lit_generator_mode()
                + mode_name_bytes(generator_mode) + lit_checkpoint_interval() + u_dec(
                checkpoint_interval as nat,
            ));
        }
        Some((generator_mode, checkpoint_interval, p16))
    }

    /// Reads a configuration back from the byte image `save_to_file`
    /// writes, as handed over by the embedding application. `Some` comes
    /// exactly for bytes that are such an image (with a checkpoint path
    /// of plain characters: one byte each, none a quote): the
    /// configuration returned writes the input bytes again.
    #[verifier::rlimit(100)]
    #[verifier::spinoff_prover]
    pub fn load_from_file(bytes: &[u8]) -> (r: Option<HuntConfig>)
        ensures
            r matches Some(c) ==> bytes@ == config_file_bytes(&c),
            (exists|c: HuntConfig| parseable_image_of(bytes@, &c)) ==> r is Some,
            (exists|c: HuntConfig| parseable_image_of(bytes@, &c)) ==> ({
                let c = choose|c: HuntConfig| parseable_image_of(bytes@, &c);
                r matches Some(c2) && c2.min_digits == c.min_digits && c2.max_digits
                    == c.max_digits && c2.target_iterations == c.target_iterations
                    && c2.max_iterations == c.max_iterations && c2.target_final_digits
                    == c.target_final_digits && c2.cache_size == c.cache_size
                    && c2.generator_mode == c.generator_mode && c2.checkpoint_interval
                    == c.checkpoint_interval && c2.warmup == c.warmup && string_image_bytes(
                    c2.checkpoint_file@,
                ) == string_image_bytes(c.checkpoint_file@)
            }),
    {
        let ghost complete = exists|c: HuntConfig| parseable_image_of(bytes@, &c);
        let ghost c0: HuntConfig = choose|c: HuntConfig| parseable_image_of(bytes@, &c);
        let bytes_len = bytes.len();
        proof {
            if complete {
                lemma_image_pieces(bytes@, &c0);
                assert(bytes@.len() == bytes_len);
            }
        }
        let (min_digits_v, max_digits, target_iterations_v, p6) =
            match Self::load_header_a(bytes, Ghost(c0)) {
            Some(t) => t,
            None => {
                proof {
                    if complete {
                        assert(false);
                    }
                }
                return None;
            },
        };
        proof {
            if complete {
                assert(image_boundary(&c0, 6) <= bytes_len);
                assert(p6 as int == image_boundary(&c0, 6));
            }
        }
        let (max_iterations_v, target_final_digits_v, cache_size_v, p12) =
            match Self::load_header_b(bytes, p6, Ghost(c0)) {
            Some(t) => t,
            None => {
                proof {
                    if complete {
                        assert(false);
                    }
                }
                return None;
            },
        };
        proof {
            if complete {
                assert(image_boundary(&c0, 12) <= bytes_len);
                assert(p12 as int == image_boundary(&c0, 12));
            }
        }
        let (generator_mode, checkpoint_interval, p16) = match Self::load_tail_modes(
            bytes,
            p12,
            Ghost(c0),
        ) {
            Some(t) => t,
            None => {
                proof {
                    if complete {
                        assert(false);
                    }
                }
                return None;
            },
        };
        proof {
            if complete {
                assert(image_boundary(&c0, 16) <= bytes_len);
                assert(p16 as int == image_boundary(&c0, 16));
            }
        }
        let mut chunk: Vec<u8> = Vec::new();
        proof {
            assert(chunk@ =~= Seq::<u8>::empty());
        }
        push_chunk_lit_checkpoint_file(&mut chunk);
        proof {
            if complete {
                assert(chunk@ == lit_checkpoint_file());
            }
        }
        let p17 = match expect_bytes(bytes, p16, &chunk) {
            Some(p) => p,
            None => {
                proof {
                    if complete {
                        assert(false);
                    }
                }
                return None;
            },
        };
        proof {
            if complete {
                assert(p17 == image_boundary(&c0, 17));
            }
        }
        proof {
            if complete {
                assert(bytes@.subrange(
                    image_boundary(&c0, 18),
                    image_boundary(&c0, 19),
                ) == lit_warmup());
                assert(image_boundary(&c0, 19) - image_boundary(&c0, 18) == lit_warmup().len());
                assert(bytes@.subrange(
                    image_boundary(&c0, 18),
                    image_boundary(&c0, 19),
                )[0] == bytes@[image_boundary(&c0, 18)]);
                assert(lit_warmup()[0] == 34);
                assert(bytes@[image_boundary(&c0, 18)] == 34);
                assert(bytes@.subrange(
                    image_boundary(&c0, 17),
                    image_boundary(&c0, 18),
                ) == string_image_bytes(c0.checkpoint_file@));
                assert(bytes@.subrange(
                    image_boundary(&c0, 17),
                    image_boundary(&c0, 18),
                ).len() == image_boundary(&c0, 18) - image_boundary(&c0, 17));
                assert(string_image_bytes(c0.checkpoint_file@).len()
                    == c0.checkpoint_file@.len());
                assert(image_boundary(&c0, 18) - image_boundary(&c0, 17)
                    == c0.checkpoint_file@.len());
                assert(p17 + c0.checkpoint_file@.len() == image_boundary(&c0, 18));
                assert(p17 + c0.checkpoint_file@.len() + 1 <= bytes@.len());
                assert(quoted_run_at(bytes@, p17 as int, c0.checkpoint_file@));
            }
        }
        let (checkpoint_file, p18) = match parse_quoted_ascii(bytes, p17) {
            Some(x) => x,
            None => {
                proof {
                    if complete {
                        assert(false);
                    }
                }
                return None;
            },
        };
        proof {
            if complete {
                assert(p18 == image_boundary(&c0, 18));
            }
        }
        chunk.clear();
        push_chunk_lit_warmup(&mut chunk);
        proof {
            if complete {
                assert(chunk@ == lit_warmup());
            }
        }
        let p19 = match expect_bytes(bytes, p18, &chunk) {
            Some(p) => p,
            None => {
                proof {
                    if complete {
                        assert(false);
                    }
                }
                return None;
            },
        };
        proof {
            if complete {
                assert(p19 == image_boundary(&c0, 19));
            }
        }
        proof {
            if complete {
                assert(bytes@.subrange(
                    image_boundary(&c0, 19),
                    image_boundary(&c0, 20),
                ) == bool_bytes(c0.warmup));
                assert(image_boundary(&c0, 20) - image_boundary(&c0, 19) == bool_bytes(
                    c0.warmup,
                ).len());
                assert(bool_bytes(c0.warmup).len() >= 1);
                assert(bytes@.subrange(
                    image_boundary(&c0, 19),
                    image_boundary(&c0, 20),
                )[0] == bytes@[p19 as int]);
            }
        }
        chunk.clear();
        push_chunk_lit_true(&mut chunk);
        let mut alt3: Vec<u8> = Vec::new();
        push_chunk_lit_false(&mut alt3);
        let (warmup, p20) = match expect_bytes(bytes, p19, &chunk) {
            Some(p) => {
                proof {
                    if complete {
                        if !c0.warmup {
                            assert(bytes@.subrange(p19 as int, p19 + 4)[0] == bytes@[
                                p19 as int]);
                            assert(false);
                        }
                        assert(p == image_boundary(&c0, 20));
                    }
                }
                (true, p)
            },
            None => {
                match expect_bytes(bytes, p19, &alt3) {
                    Some(p) => {
                        proof {
                            if complete {
                                if c0.warmup {
                                    assert(false);
                                }
                                assert(p == image_boundary(&c0, 20));
                            }
                        }
                        (false, p)
                    },
                    None => {
                        proof {
                            if complete {
                                assert(false);
                            }
                        }
                        return None;
                    },
                }
            },
        };
        chunk.clear();
        push_chunk_lit_obj_close(&mut chunk);
        proof {
            if complete {
                assert(chunk@ == lit_obj_close());
            }
        }
        let p21 = match expect_bytes(bytes, p20, &chunk) {
            Some(p) => p,
            None => {
                proof {
                    if complete {
                        assert(false);
                    }
                }
                return None;
            },
        };
        proof {
            if complete {
                assert(p21 == image_boundary(&c0, 21));
            }
        }
        if p21 != bytes.len() {
            proof {
                if complete {
                    assert(false);
                }
            }
            return None;
        }

        let config = HuntConfig {
            min_digits: min_digits_v as usize,
            max_digits,
            target_iterations: target_iterations_v as u32,
            max_iterations: max_iterations_v as u32,
            target_final_digits: target_final_digits_v as usize,
            cache_size: cache_size_v as usize,
            generator_mode,
            checkpoint_interval,
            checkpoint_file,
            warmup,
        };
        proof {
            lemma_loader_assembly(
                bytes@,
                &config,
                p6 as int,
                p12 as int,
                p16 as int,
                p17 as int,
                p18 as int,
                p19 as int,
                p20 as int,
                p21 as int,
            );
            if complete {
                assert(config.min_digits == c0.min_digits);
                assert(config.max_digits == c0.max_digits);
                assert(config.target_iterations == c0.target_iterations);
                assert(config.max_iterations == c0.max_iterations);
                assert(config.target_final_digits == c0.target_final_digits);
                assert(config.cache_size == c0.cache_size);
                assert(config.generator_mode == c0.generator_mode);
                assert(config.checkpoint_interval == c0.checkpoint_interval);
                assert(config.warmup == c0.warmup);
                assert(string_image_bytes(config.checkpoint_file@) =~= string_image_bytes(
                    c0.checkpoint_file@,
                )) by {
                    assert(bytes@.subrange(p17 as int, p18 as int) =~= string_image_bytes(
                        config.checkpoint_file@,
                    ));
                    assert(bytes@.subrange(
                        image_boundary(&c0, 17),
                        image_boundary(&c0, 18),
                    ) == string_image_bytes(c0.checkpoint_file@));
                }
            }
        }
        Some(config)
    }

    /// The byte image of this configuration's file, ready to be written
    /// to disk by the embedding application.
    pub fn save_to_file(&self) -> (r: Vec<u8>)
        ensures
            r@ == config_file_bytes(self),
    {
        let mut out: Vec<u8> = Vec::new();
        push_chunk_lit_obj_open(&mut out);
        push_u64_dec(&mut out, self.min_digits as u64);
        push_chunk_lit_max_digits(&mut out);
        match self.max_digits {
            Some(d) => push_u64_dec(&mut out, d as u64),
            None => push_chunk_lit_null(&mut out),
        }
        push_chunk_lit_target_iterations(&mut out);
        push_u64_dec(&mut out, self.target_iterations as u64);
        push_chunk_lit_max_iterations(&mut out);
        push_u64_dec(&mut out, self.max_iterations as u64);
        push_chunk_lit_target_final_digits(&mut out);
        push_u64_dec(&mut out, self.target_final_digits as u64);
        push_chunk_lit_cache_size(&mut out);
        push_u64_dec(&mut out, self.cache_size as u64);
        push_chunk_lit_generator_mode(&mut out);
        match self.generator_mode {
            GeneratorMode::Sequential => push_chunk_lit_sequential(&mut out),
            GeneratorMode::SmartRandom => push_chunk_lit_smart_random(&mut out),
            GeneratorMode::PatternBased => push_chunk_lit_pattern_based(&mut out),
        }
        push_chunk_lit_checkpoint_interval(&mut out);
        push_u64_dec(&mut out, self.checkpoint_interval);
        push_chunk_lit_checkpoint_file(&mut out);
        push_string_image(&mut out, &self.checkpoint_file);
        push_chunk_lit_warmup(&mut out);
        if self.warmup {
            push_chunk_lit_true(&mut out);
        } else {
            push_chunk_lit_false(&mut out);
        }
        push_chunk_lit_obj_close(&mut out);
        proof {
            reveal(config_file_bytes);
            assert(out@ =~= config_file_bytes(self));
        }
        out
    }
}

} // verus!
