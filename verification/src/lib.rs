//! Core of a quote-snapshot poller: per cycle, every configured symbol is
//! attempted once, the successes become normalized records, and the batch
//! is serialized as a tabular snapshot that replaces the previous one.
//!
//! The pieces fit together as contracts: `cycle` builds the batch and
//! guarantees that failures stay isolated and order is kept, `csvfmt`
//! writes the snapshot bytes, `csvparse` proves them readable again, and
//! `poll` decides whether another cycle follows. Fetching, file writing
//! and sleeping are the caller's work, driven through these types.

pub mod csvfmt;
pub mod csvparse;
pub mod cycle;
pub mod digits;
pub mod poll;
pub mod quote;
