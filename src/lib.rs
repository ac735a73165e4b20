//! Incremental maintenance of item-to-item Jaccard similarity over a stream of
//! batches that add or remove (user, item) interactions.
//!
//! `store` holds the interactions as a log of signed deltas and derives, per
//! batch, the per-item count diffs and the cooccurrence contributions of the
//! self-join on user; `similarity` turns counts into exact Jaccard ratios.

pub mod engine;
pub mod similarity;
pub mod store;
