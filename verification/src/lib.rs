//! Generation of supplemental terminal-procedure files for a flight-simulation
//! navigation database: merging relational procedure data into per-leg records,
//! reconciling procedure lists with stable sequence numbers, and appending
//! per-leg detail blocks to procedure files.

pub mod legs;
pub mod listing;
pub mod merge;
pub mod mirror;
pub mod numbers;
pub mod parsing;
pub mod prep;
pub mod records;
pub mod revision;
pub mod text;
