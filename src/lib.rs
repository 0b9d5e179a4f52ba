//! Bootstrap distributions of one-sample and two-sample statistics, built
//! from a seeded resample generator, and the chunk bookkeeping that lets a
//! result buffer be filled in disjoint pieces (by workers, say) with the same
//! values, in the same places, as a single pass.
pub mod batch;
pub mod bootstrap;
pub mod chunks;
pub mod resamples;
