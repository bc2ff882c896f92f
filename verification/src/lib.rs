//! Ingestion, sampling and analysis planning for a table of career records.
//!
//! The numbers of the table are kept as the decimal text that was read, each
//! a numeral that a finite double is nearest to. The library decides which
//! rows are records, draws the sample, counts and lays out what the report on
//! it needs, and classifies a correlation. Doubles appear only by their
//! encodings and are only compared; the arithmetic on them is the caller's.

pub mod text;
pub mod numeral;
pub mod doubles;
pub mod record;
pub mod sampler;
pub mod ingest;
pub mod analysis;
pub mod study;
