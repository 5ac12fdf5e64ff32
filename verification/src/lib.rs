//! A bounded-memory external sorting engine for fixed-width records.
//!
//! The engine ingests lines of the form `"{40-hex-chars}:{decimal-count}"`,
//! splits them into sorted runs under a configured buffer capacity, and
//! merges the runs through a bounded merge window into one globally sorted
//! stream.

pub mod codec;
pub mod generator;
pub mod merge;
pub mod pipeline;
pub mod sorting;

pub use codec::Entry;
pub use codec::Error;
