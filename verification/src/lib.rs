//! Sample value identifiers from a distribution approximated by a histogram.
//!
//! The input is a histogram: an ordered list of `(center, count)` bins plus
//! the bin width that was used when the histogram was produced. From it the
//! library builds an immutable cumulative-weight index ([`Sampler`]) and maps
//! uniform draws over the index's total weight to value identifiers, so that
//! the ids' bucketed distribution matches the input histogram. The uniform
//! draws themselves come from the caller: the library never touches a random
//! number generator.
//!
//! Each id is meant to be chosen with probability proportional to the average
//! value its bin represents. For a bin centered on `center > 0` that average
//! is `center` itself; the bin centered on `0` only represents values in
//! `[0, bin_width / 2)`, so its average is `bin_width / 4` — using the naive
//! weight there would systematically overweight the first bin. All weights
//! are scaled by four to keep them integral (see [`bin_weight`]).
//!
//! The index is the compact, aggregated form: one interval per non-empty bin,
//! with the id resolved at sample time as `first_id + (draw - start) % count`.
//! This keeps the index at one entry per bin rather than one per id. With a
//! small bin width (around ten or less) the first bin's narrow range makes
//! random spill-over likely: re-bucketing a sampled stream typically
//! undershoots the first bin and overshoots the second by a few percentage
//! points each, while all other bins match closely.
//!
//! Bin centers must be strictly increasing: duplicate or out-of-order centers
//! are rejected rather than merged ([`BuildError::UnorderedCenters`]).

mod index;
mod sampler;

pub use index::{
    bin_weight, centers_strictly_increasing, index_of, interval_index, lemma_index_offsets,
    spec_sample, total_count_of, total_weight_of, valid_bins, IntervalModel,
};
pub use sampler::{lemma_sample_deterministic, sample_ids, BuildError, SampleError, Sampler};
