//! Searching a contiguous range of seeds for potential Lychrel numbers.

use vstd::prelude::*;
use crate::digits::BigDecimalInt;
use crate::digits::pal_nat;
use crate::lychrel::IterationResult;
use crate::lychrel::lychrel_iteration;
use crate::lychrel::orbit;

verus! {

/// What to search: every seed in `[start, end]`, each run for at most
/// `max_iterations` reverse-add steps. `parallel` is a scheduling hint;
/// the results do not depend on it. Checkpoint handling belongs to the
/// embedding application.
pub struct SearchConfig {
    pub start: BigDecimalInt,
    pub end: BigDecimalInt,
    pub max_iterations: u32,
    pub parallel: bool,
    pub checkpoint_interval: Option<u64>,
    pub checkpoint_file: Option<String>,
}

/// What a range search found.
pub struct SearchResults {
    pub total_tested: u64,
    pub potential_lychrel: Vec<IterationResult>,
    pub palindromes_found: Vec<IterationResult>,
}

/// The seed's orbit reaches no palindrome within `max` steps.
pub open spec fn lychrel_within(v: nat, max: u32) -> bool {
    forall|j: nat| j <= max ==> !pal_nat(#[trigger] orbit(v, j))
}

/// The seed's orbit reaches its first palindrome after between 1 and
/// `max` steps; such seeds are reported as palindrome finds.
pub open spec fn pal_find_within(v: nat, max: u32) -> bool {
    !pal_nat(v) && exists|j: nat| j <= max && pal_nat(#[trigger] orbit(v, j))
}

impl SearchResults {
    /// Empty results.
    pub fn new() -> (r: Self)
        ensures
            r.total_tested == 0,
            r.potential_lychrel@.len() == 0,
            r.palindromes_found@.len() == 0,
    {
        SearchResults { total_tested: 0, potential_lychrel: Vec::new(), palindromes_found: Vec::new() }
    }
}

impl Default for SearchResults {
    fn default() -> (r: Self)
        ensures
            r.total_tested == 0,
            r.potential_lychrel@.len() == 0,
            r.palindromes_found@.len() == 0,
    {
        Self::new()
    }
}

/// Tests every seed in `[start, end]`. A seed whose orbit reaches no
/// palindrome within the bound lands in `potential_lychrel`; one that
/// first reaches a palindrome after at least one step lands in
/// `palindromes_found`; a seed already palindromic lands in neither.
/// The `parallel` hint does not change the outcome.
pub fn search_range(config: SearchConfig) -> (r: SearchResults)
    requires
        config.start.wf(),
        config.end.wf(),
        config.end.value() - config.start.value() + 1 <= u64::MAX,
    ensures
        r.total_tested == if config.start.value() <= config.end.value() {
            config.end.value() - config.start.value() + 1
        } else {
            0int
        },
        forall|i: int| 0 <= i < r.potential_lychrel@.len() ==> {
            let res = #[trigger] r.potential_lychrel@[i];
            &&& res.start_number.wf()
            &&& config.start.value() <= res.start_number.value() <= config.end.value()
            &&& !res.is_palindrome
            &&& res.is_potential_lychrel
            &&& res.iterations == config.max_iterations
            &&& lychrel_within(res.start_number.value(), config.max_iterations)
        },
        forall|i: int| 0 <= i < r.palindromes_found@.len() ==> {
            let res = #[trigger] r.palindromes_found@[i];
            &&& res.start_number.wf()
            &&& config.start.value() <= res.start_number.value() <= config.end.value()
            &&& res.is_palindrome
            &&& res.iterations >= 1
            &&& pal_nat(orbit(res.start_number.value(), res.iterations as nat))
            &&& pal_find_within(res.start_number.value(), config.max_iterations)
        },
        forall|i: int, j: int|
            0 <= i < j < r.potential_lychrel@.len() ==> (
            #[trigger] r.potential_lychrel@[i]).start_number.value() != (
            #[trigger] r.potential_lychrel@[j]).start_number.value(),
        forall|i: int, j: int|
            0 <= i < j < r.palindromes_found@.len() ==> (
            #[trigger] r.palindromes_found@[i]).start_number.value() != (
            #[trigger] r.palindromes_found@[j]).start_number.value(),
        forall|w: nat|
            config.start.value() <= w <= config.end.value() && lychrel_within(
                w,
                config.max_iterations,
            ) ==> exists|i: int|
                0 <= i < r.potential_lychrel@.len() && (#[trigger] r.potential_lychrel@[i]).start_number.value() == w,
        forall|w: nat|
            config.start.value() <= w <= config.end.value() && pal_find_within(
                w,
                config.max_iterations,
            ) ==> exists|i: int|
                0 <= i < r.palindromes_found@.len() && (#[trigger] r.palindromes_found@[i]).start_number.value() == w,
{
    let ghost sv = config.start.value();
    let ghost ev = config.end.value();
    let one = BigDecimalInt::from_u64(1);
    let mut results = SearchResults::new();
    let mut current = config.start.clone();
    while !config.end.less_than(&current)
        invariant
            config.start.wf(),
            config.end.wf(),
            sv == config.start.value(),
            ev == config.end.value(),
            ev - sv + 1 <= u64::MAX,
            one.wf() && one.value() == 1,
            current.wf(),
            sv <= current.value(),
            current.value() <= ev + 1 || current.value() == sv,
            results.total_tested == current.value() - sv,
            forall|i: int| 0 <= i < results.potential_lychrel@.len() ==> {
                let res = #[trigger] results.potential_lychrel@[i];
                &&& res.start_number.wf()
                &&& sv <= res.start_number.value() < current.value()
                &&& !res.is_palindrome
                &&& res.is_potential_lychrel
                &&& res.iterations == config.max_iterations
                &&& lychrel_within(res.start_number.value(), config.max_iterations)
            },
            forall|i: int| 0 <= i < results.palindromes_found@.len() ==> {
                let res = #[trigger] results.palindromes_found@[i];
                &&& res.start_number.wf()
                &&& sv <= res.start_number.value() < current.value()
                &&& res.is_palindrome
                &&& res.iterations >= 1
                &&& pal_nat(orbit(res.start_number.value(), res.iterations as nat))
                &&& pal_find_within(res.start_number.value(), config.max_iterations)
            },
            forall|i: int, j: int|
                0 <= i < j < results.potential_lychrel@.len() ==> (
                #[trigger] results.potential_lychrel@[i]).start_number.value() != (
                #[trigger] results.potential_lychrel@[j]).start_number.value(),
            forall|i: int, j: int|
                0 <= i < j < results.palindromes_found@.len() ==> (
                #[trigger] results.palindromes_found@[i]).start_number.value() != (
                #[trigger] results.palindromes_found@[j]).start_number.value(),
            forall|w: nat|
                sv <= w < current.value() && lychrel_within(w, config.max_iterations)
                    ==> exists|i: int|
                    0 <= i < results.potential_lychrel@.len() && (
                    #[trigger] results.potential_lychrel@[i]).start_number.value() == w,
            forall|w: nat|
                sv <= w < current.value() && pal_find_within(w, config.max_iterations)
                    ==> exists|i: int|
                    0 <= i < results.palindromes_found@.len() && (
                    #[trigger] results.palindromes_found@[i]).start_number.value() == w,
        decreases ev + 1 - current.value(),
    {
        let ghost w = current.value();
        let result = lychrel_iteration(current.clone(), config.max_iterations);
        results.total_tested = results.total_tested + 1;

        if result.is_potential_lychrel {
            proof {
                assert(lychrel_within(w, config.max_iterations));
            }
            let ghost pl_old = results.potential_lychrel@;
            results.potential_lychrel.push(result);
            proof {
                assert forall|w2: nat|
                    sv <= w2 < w + 1 && lychrel_within(w2, config.max_iterations)
                        implies exists|i: int|
                        0 <= i < results.potential_lychrel@.len() && (
                        #[trigger] results.potential_lychrel@[i]).start_number.value() == w2 by {
                    if w2 == w {
                        assert(results.potential_lychrel@[pl_old.len() as int].start_number.value()
                            == w2);
                    } else {
                        let i = choose|i: int|
                            0 <= i < pl_old.len() && (#[trigger] pl_old[i]).start_number.value()
                                == w2;
                        assert(results.potential_lychrel@[i].start_number.value() == w2);
                    }
                }
            }
        } else if result.iterations > 0 {
            proof {
                assert(orbit(w, 0) == w);
                assert(!pal_nat(w));
                assert(pal_find_within(w, config.max_iterations));
            }
            let ghost pf_old = results.palindromes_found@;
            results.palindromes_found.push(result);
            proof {
                assert forall|w2: nat|
                    sv <= w2 < w + 1 && pal_find_within(w2, config.max_iterations)
                        implies exists|i: int|
                        0 <= i < results.palindromes_found@.len() && (
                        #[trigger] results.palindromes_found@[i]).start_number.value() == w2 by {
                    if w2 == w {
                        assert(results.palindromes_found@[pf_old.len() as int].start_number.value()
                            == w2);
                    } else {
                        let i = choose|i: int|
                            0 <= i < pf_old.len() && (#[trigger] pf_old[i]).start_number.value()
                                == w2;
                        assert(results.palindromes_found@[i].start_number.value() == w2);
                    }
                }
            }
        } else {
            proof {
                assert(orbit(w, 0) == w);
                assert(pal_nat(w));
            }
        }
        let next = current.add_to(&one);
        current = next;
    }
    results
}

} // verus!
