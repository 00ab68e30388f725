//! Hunts for record numbers under the reverse-and-add process: starting from
//! a natural number n, repeatedly replace n by n plus its decimal reversal
//! until the result is a palindrome or an iteration bound is reached.
//!
//! The core pieces are an arbitrary-precision decimal integer, the reverse-add
//! engine, a memo cache of previously explored orbits, a seed generator with
//! an orbit-representative filter, and the batched record hunter built on
//! them. Every public function carries a contract; file and console I/O, and
//! the parallel scheduling of batches, belong to the embedding application.

pub mod checkpoint;
pub mod clock;
pub mod digits;
pub mod lychrel;
pub mod record_checkpoint;
pub mod record_hunt;
pub mod search;
pub mod search_checkpoint;
pub mod seed_generator;
pub mod thread_cache;

pub use checkpoint::Checkpoint;
pub use digits::BigDecimalInt;
pub use lychrel::{
    is_palindrome, lychrel_iteration, lychrel_iteration_with_cache, reverse_number,
    IterationResult,
};
pub use record_checkpoint::{
    CheckpointConfig, CheckpointStatistics, GeneratorState, RecordHuntCheckpoint,
};
pub use record_hunt::{
    BatchResults, BatchStart, ConfigError, HuntConfig, HuntResults, HuntStatistics, HuntStep,
    RecordCandidate, RecordHunter,
};
pub use search::{search_range, SearchConfig, SearchResults};
pub use search_checkpoint::{SearchCheckpoint, SearchCheckpointBuilder};
pub use seed_generator::{GeneratorMode, SeedGenerator};
pub use thread_cache::{CacheStats, ThreadCache, ThreadInfo};
