//! Verified core of a polling-place ingestion pipeline.
//!
//! The pipeline decodes a UTF-16LE, tab-delimited byte stream into text,
//! parses it into a typed column-oriented table, drops rows whose required
//! fields are null, coerces identifier and date columns with per-value
//! tolerance, counts rows per region, and reduces the per-region counts to
//! exact mean and population-variance fractions.  File access, chart drawing
//! and floating-point formatting live outside this crate.

pub mod agg;
pub mod clean;
pub mod codec;
pub mod error;
pub mod coerce;
pub mod parse;
pub mod pipeline;
pub mod stats;
pub mod table;
