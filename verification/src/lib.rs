//! A fixed-memory quantile-estimation digest.
//!
//! The digest ingests a stream of integer-valued samples (callers pick a
//! fixed-point scale for their data) and answers two inverse queries with
//! bounded space: the approximate fraction of samples at or below a value,
//! and the approximate value at a given quantile. Quantiles are exchanged
//! as fixed-point fractions of [`QUANTILE_SCALE`].
//!
//! All operations are synchronous and complete in bounded time; the
//! structure holds no locks and no external resources. Queries take
//! `&self` and merges `&mut self`, so the borrow checker enforces the
//! intended single-writer, multi-reader-when-quiescent discipline.

pub mod centroid;
pub mod cluster;
pub mod laws;
pub mod merge;
pub mod model;
pub mod query;
pub mod scale;
pub mod sort;
pub mod tdigest;

pub use centroid::Centroid;
pub use model::MAX_TOTAL_WEIGHT;
pub use model::QUANTILE_SCALE;
pub use tdigest::MergeError;
pub use tdigest::TDigest;
