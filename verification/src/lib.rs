//! Co-occurrence counting between two reference panels.
//!
//! Two alignment streams are read from the same set of sequenced fragments.
//! Each stream yields, per fragment, the set of reference-sequence ids the
//! fragment hit. This crate aggregates the two per-fragment hit mappings
//! into a table counting every observed (reference-A, reference-B)
//! combination, then completes the table so that every expected combination
//! appears with an explicit count, and resolves the counted ids back to
//! reference names. Reading the alignment files and writing the table are
//! left to the caller; everything that decides what is counted lives here.

pub mod errors;
pub mod extract;
pub mod hits;
pub mod table;
pub mod engine;
pub mod emit;
