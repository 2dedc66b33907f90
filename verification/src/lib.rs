//! An append-only ledger of geospatial observations held as fixed-point
//! integers, together with the integer side of the two analyses run over it:
//! the validation and matrix layout that precede k-means clustering and
//! Gaussian naive Bayes classification, and the rendering that follows them.
//!
//! Everything here is integer arithmetic, so every replica computes the same
//! bits. Numbers that arrive as IEEE-754 doubles are handled by their bit
//! pattern ([`decimal::Decimal`]).

pub mod classification;
pub mod clustering;
pub mod codec;
pub mod contract;
pub mod decimal;
pub mod error;
pub mod ledger;
pub mod report;
