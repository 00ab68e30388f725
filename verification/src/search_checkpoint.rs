//! The durable snapshot of a range search: the range, the position
//! reached, and the potential Lychrel seeds found so far. Reading and
//! writing the file belongs to the embedding application.

use vstd::prelude::*;
use crate::digits::BigDecimalInt;
use crate::lychrel::IterationResult;
use crate::clock::local_timestamp;

verus! {

/// The resumable state of a range search; elapsed time is carried in
/// whole milliseconds.
pub struct SearchCheckpoint {
    pub start_range: BigDecimalInt,
    pub end_range: BigDecimalInt,
    pub current_number: BigDecimalInt,
    pub max_iterations: u32,
    pub numbers_tested: u64,
    pub potential_lychrel_found: Vec<BigDecimalInt>,
    pub checkpoint_interval: Option<u64>,
    pub checkpoint_file: Option<String>,
    pub elapsed_millis: u64,
    pub timestamp: String,
}

/// Assembles a `SearchCheckpoint` field by field; unset fields default
/// to zero or to nothing.
pub struct SearchCheckpointBuilder {
    pub start_range: Option<BigDecimalInt>,
    pub end_range: Option<BigDecimalInt>,
    pub current_number: Option<BigDecimalInt>,
    pub max_iterations: Option<u32>,
    pub numbers_tested: Option<u64>,
    pub potential_lychrel: Option<Vec<IterationResult>>,
    pub checkpoint_interval: Option<u64>,
    pub checkpoint_file: Option<String>,
    pub elapsed_millis: Option<u64>,
}

impl SearchCheckpointBuilder {
    /// A builder with nothing set.
    pub fn new() -> (r: Self)
        ensures
            r.start_range is None,
            r.end_range is None,
            r.current_number is None,
            r.max_iterations is None,
            r.numbers_tested is None,
            r.potential_lychrel is None,
            r.checkpoint_interval is None,
            r.checkpoint_file is None,
            r.elapsed_millis is None,
    {
        SearchCheckpointBuilder {
            start_range: None,
            end_range: None,
            current_number: None,
            max_iterations: None,
            numbers_tested: None,
            potential_lychrel: None,
            checkpoint_interval: None,
            checkpoint_file: None,
            elapsed_millis: None,
        }
    }

    pub fn start_range(self, value: BigDecimalInt) -> (r: Self)
        ensures
            r == (SearchCheckpointBuilder { start_range: Some(value), ..self }),
    {
        SearchCheckpointBuilder { start_range: Some(value), ..self }
    }

    pub fn end_range(self, value: BigDecimalInt) -> (r: Self)
        ensures
            r == (SearchCheckpointBuilder { end_range: Some(value), ..self }),
    {
        SearchCheckpointBuilder { end_range: Some(value), ..self }
    }

    pub fn current_number(self, value: BigDecimalInt) -> (r: Self)
        ensures
            r == (SearchCheckpointBuilder { current_number: Some(value), ..self }),
    {
        SearchCheckpointBuilder { current_number: Some(value), ..self }
    }

    pub fn max_iterations(self, value: u32) -> (r: Self)
        ensures
            r == (SearchCheckpointBuilder { max_iterations: Some(value), ..self }),
    {
        SearchCheckpointBuilder { max_iterations: Some(value), ..self }
    }

    pub fn numbers_tested(self, value: u64) -> (r: Self)
        ensures
            r == (SearchCheckpointBuilder { numbers_tested: Some(value), ..self }),
    {
        SearchCheckpointBuilder { numbers_tested: Some(value), ..self }
    }

    pub fn potential_lychrel(self, value: Vec<IterationResult>) -> (r: Self)
        ensures
            r == (SearchCheckpointBuilder { potential_lychrel: Some(value), ..self }),
    {
        SearchCheckpointBuilder { potential_lychrel: Some(value), ..self }
    }

    pub fn checkpoint_interval(self, value: Option<u64>) -> (r: Self)
        ensures
            r == (SearchCheckpointBuilder { checkpoint_interval: value, ..self }),
    {
        SearchCheckpointBuilder { checkpoint_interval: value, ..self }
    }

    pub fn checkpoint_file(self, value: Option<String>) -> (r: Self)
        ensures
            r == (SearchCheckpointBuilder { checkpoint_file: value, ..self }),
    {
        SearchCheckpointBuilder { checkpoint_file: value, ..self }
    }

    pub fn elapsed_millis(self, value: u64) -> (r: Self)
        ensures
            r == (SearchCheckpointBuilder { elapsed_millis: Some(value), ..self }),
    {
        SearchCheckpointBuilder { elapsed_millis: Some(value), ..self }
    }

    /// The checkpoint the set fields describe, stamped with the current
    /// local time. The found seeds are the start numbers of the
    /// potential Lychrel results.
    pub fn build(self) -> (r: SearchCheckpoint)
        ensures
            self.start_range matches Some(v) ==> r.start_range@ == v@,
            self.start_range is None ==> r.start_range@.len() == 0,
            self.end_range matches Some(v) ==> r.end_range@ == v@,
            self.end_range is None ==> r.end_range@.len() == 0,
            self.current_number matches Some(v) ==> r.current_number@ == v@,
            self.current_number is None ==> r.current_number@.len() == 0,
            r.max_iterations == match self.max_iterations {
                Some(v) => v,
                None => 0u32,
            },
            r.numbers_tested == match self.numbers_tested {
                Some(v) => v,
                None => 0u64,
            },
            self.potential_lychrel matches Some(results) ==> {
                &&& r.potential_lychrel_found@.len() == results@.len()
                &&& forall|i: int| 0 <= i < results@.len()
                    ==> (#[trigger] r.potential_lychrel_found@[i])@
                        == results@[i].start_number@
            },
            self.potential_lychrel is None ==> r.potential_lychrel_found@.len() == 0,
            r.checkpoint_interval == self.checkpoint_interval,
            r.checkpoint_file == self.checkpoint_file,
            r.elapsed_millis == match self.elapsed_millis {
                Some(v) => v,
                None => 0u64,
            },
    {
        let start_range = match self.start_range {
            Some(v) => v,
            None => BigDecimalInt::new_zero(),
        };
        let end_range = match self.end_range {
            Some(v) => v,
            None => BigDecimalInt::new_zero(),
        };
        let current_number = match self.current_number {
            Some(v) => v,
            None => BigDecimalInt::new_zero(),
        };
        let mut potential_lychrel_found: Vec<BigDecimalInt> = Vec::new();
        if let Some(results) = &self.potential_lychrel {
            let n = results.len();
            let mut i: usize = 0;
            while i < n
                invariant
                    n == results@.len(),
                    i <= n,
                    potential_lychrel_found@.len() == i,
                    forall|j: int| 0 <= j < i ==> (#[trigger] potential_lychrel_found@[j])@
                        == results@[j].start_number@,
                decreases n - i,
            {
                potential_lychrel_found.push(results[i].start_number.clone());
                i += 1;
            }
        }
        SearchCheckpoint {
            start_range,
            end_range,
            current_number,
            max_iterations: match self.max_iterations {
                Some(v) => v,
                None => 0,
            },
            numbers_tested: match self.numbers_tested {
                Some(v) => v,
                None => 0,
            },
            potential_lychrel_found,
            checkpoint_interval: self.checkpoint_interval,
            checkpoint_file: self.checkpoint_file,
            elapsed_millis: match self.elapsed_millis {
                Some(v) => v,
                None => 0,
            },
            timestamp: local_timestamp(),
        }
    }
}

impl SearchCheckpoint {
    /// How many numbers remain between the stored position and the
    /// range's end, for positions and ends that fit a machine word;
    /// zero otherwise, and zero at or past the end.
    pub fn numbers_remaining(&self) -> (r: u64)
        requires
            self.current_number.wf(),
            self.end_range.wf(),
        ensures
            r == if self.current_number.value() <= u64::MAX && self.end_range.value() <= u64::MAX
                && self.current_number.value() <= self.end_range.value() {
                self.end_range.value() - self.current_number.value()
            } else {
                0int
            },
    {
        match (self.current_number.to_u64(), self.end_range.to_u64()) {
            (Some(current), Some(end)) => end.saturating_sub(current),
            _ => 0,
        }
    }
}

} // verus!
