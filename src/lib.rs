//! Solver for a hash-based proof-of-work gate: it reads the challenge
//! parameters out of a page, formats and scores candidate nonces, and
//! coordinates a partitioned search that reports a single winner.
pub mod attempt;
pub mod evaluate;
pub mod extract;
pub mod search;
