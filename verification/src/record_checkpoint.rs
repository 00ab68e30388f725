//! The durable snapshot of a record hunt: generator position, statistics,
//! and where the companion cache file lives. Reading and writing the
//! files belongs to the embedding application.

use vstd::prelude::*;
use crate::digits::BigDecimalInt;
use crate::record_hunt::HuntStatistics;
use crate::record_hunt::RecordCandidate;
use crate::seed_generator::GeneratorMode;
use crate::clock::local_timestamp;

verus! {

/// Where the generator stood when the checkpoint was taken.
pub struct GeneratorState {
    pub current_value: BigDecimalInt,
    pub digits: usize,
    pub mode: GeneratorMode,
}

/// The statistics a checkpoint carries; the running clock is not among
/// them and restarts on resume.
pub struct CheckpointStatistics {
    pub numbers_tested: u64,
    pub seeds_tested: u64,
    pub cache_hits: u64,
    pub cache_misses: u64,
    pub best_iterations_found: u32,
    pub best_digits_found: usize,
    pub candidates_above_200: Vec<RecordCandidate>,
}

/// The configuration snapshot a checkpoint carries.
pub struct CheckpointConfig {
    pub min_digits: usize,
    pub max_digits: Option<usize>,
    pub target_iterations: u32,
    pub max_iterations: u32,
    pub target_final_digits: usize,
    pub cache_size: usize,
    pub checkpoint_interval: u64,
}

/// A record hunt checkpoint: enough to resume at the stored generator
/// position with the stored statistics, next to a cache file named by
/// `thread_cache_file`.
pub struct RecordHuntCheckpoint {
    pub generator_state: GeneratorState,
    pub statistics: CheckpointStatistics,
    pub thread_cache_file: String,
    pub timestamp: String,
    pub config: CheckpointConfig,
}

/// A pairwise copy of a candidate list.
pub fn clone_candidates(list: &Vec<RecordCandidate>) -> (r: Vec<RecordCandidate>)
    ensures
        r@.len() == list@.len(),
        forall|i: int| 0 <= i < r@.len() ==> (#[trigger] r@[i]).number@ == (
        #[trigger] list@[i]).number@ && r@[i].iterations == list@[i].iterations
            && r@[i].final_digits == list@[i].final_digits,
{
    let n = list.len();
    let mut out: Vec<RecordCandidate> = Vec::new();
    let mut i: usize = 0;
    while i < n
        invariant
            n == list@.len(),
            i <= n,
            out@.len() == i,
            forall|j: int| 0 <= j < i ==> (#[trigger] out@[j]).number@ == (
            #[trigger] list@[j]).number@ && out@[j].iterations == list@[j].iterations
                && out@[j].final_digits == list@[j].final_digits,
        decreases n - i,
    {
        let c = list[i].clone();
        out.push(c);
        i += 1;
    }
    out
}

impl RecordHuntCheckpoint {
    /// A checkpoint of the given hunt state, stamped with the current
    /// local time.
    pub fn new(
        current_position: &BigDecimalInt,
        digits: usize,
        mode: GeneratorMode,
        stats: &HuntStatistics,
        cache_file: String,
        config: CheckpointConfig,
    ) -> (r: Self)
        ensures
            r.generator_state.current_value@ == current_position@,
            r.generator_state.digits == digits,
            r.generator_state.mode == mode,
            r.statistics.numbers_tested == stats.numbers_tested,
            r.statistics.seeds_tested == stats.seeds_tested,
            r.statistics.cache_hits == stats.cache_hits,
            r.statistics.cache_misses == stats.cache_misses,
            r.statistics.best_iterations_found == stats.best_iterations_found,
            r.statistics.best_digits_found == stats.best_digits_found,
            r.statistics.candidates_above_200@.len() == stats.candidates_above_200@.len(),
            forall|i: int|
                0 <= i < r.statistics.candidates_above_200@.len() ==> {
                    let kept = #[trigger] r.statistics.candidates_above_200@[i];
                    let orig = stats.candidates_above_200@[i];
                    kept.number@ == orig.number@ && kept.iterations == orig.iterations
                        && kept.final_digits == orig.final_digits
                },
            r.thread_cache_file@ == cache_file@,
            r.config == config,
    {
        RecordHuntCheckpoint {
            generator_state: GeneratorState {
                current_value: current_position.clone(),
                digits,
                mode,
            },
            statistics: CheckpointStatistics {
                numbers_tested: stats.numbers_tested,
                seeds_tested: stats.seeds_tested,
                cache_hits: stats.cache_hits,
                cache_misses: stats.cache_misses,
                best_iterations_found: stats.best_iterations_found,
                best_digits_found: stats.best_digits_found,
                candidates_above_200: clone_candidates(&stats.candidates_above_200),
            },
            thread_cache_file: cache_file,
            timestamp: local_timestamp(),
            config,
        }
    }

    /// The stored generator position.
    pub fn get_current_position(&self) -> (r: BigDecimalInt)
        ensures
            r@ == self.generator_state.current_value@,
    {
        self.generator_state.current_value.clone()
    }
}

} // verus!
