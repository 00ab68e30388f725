//! A snapshot of one long single-number verification run, enough to
//! resume it: the seed, the current iterate, and how far the run has come.

use vstd::prelude::*;
use crate::digits::BigDecimalInt;
use crate::clock::local_timestamp;

verus! {

/// The resumable state of a single-number run. Reading and writing the
/// checkpoint file belongs to the embedding application; elapsed time is
/// carried in whole milliseconds.
pub struct Checkpoint {
    pub start_number: BigDecimalInt,
    pub current_number: BigDecimalInt,
    pub iterations_completed: u64,
    pub max_iterations: u64,
    pub progress_interval: u64,
    pub checkpoint_interval: Option<u64>,
    pub elapsed_millis: u64,
    pub timestamp: String,
}

impl Checkpoint {
    /// A checkpoint of the given run state, stamped with the current
    /// local time.
    pub fn new(
        start_number: BigDecimalInt,
        current_number: BigDecimalInt,
        iterations_completed: u64,
        max_iterations: u64,
        progress_interval: u64,
        checkpoint_interval: Option<u64>,
        elapsed_millis: u64,
    ) -> (r: Self)
        ensures
            r.start_number == start_number,
            r.current_number == current_number,
            r.iterations_completed == iterations_completed,
            r.max_iterations == max_iterations,
            r.progress_interval == progress_interval,
            r.checkpoint_interval == checkpoint_interval,
            r.elapsed_millis == elapsed_millis,
    {
        let timestamp = local_timestamp();
        Checkpoint {
            start_number,
            current_number,
            iterations_completed,
            max_iterations,
            progress_interval,
            checkpoint_interval,
            elapsed_millis,
            timestamp,
        }
    }

    /// How many decimal digits the current iterate has.
    pub fn digit_count(&self) -> (r: usize)
        ensures
            r == if self.current_number@.len() == 0 {
                1int
            } else {
                self.current_number@.len() as int
            },
    {
        self.current_number.digit_count()
    }

    /// How many iterations are still owed; zero at or past the bound.
    pub fn iterations_remaining(&self) -> (r: u64)
        ensures
            r == if self.iterations_completed <= self.max_iterations {
                self.max_iterations - self.iterations_completed
            } else {
                0int
            },
    {
        if self.iterations_completed <= self.max_iterations {
            self.max_iterations - self.iterations_completed
        } else {
            0
        }
    }
}

} // verus!
