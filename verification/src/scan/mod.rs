//! Scanning a byte stream for values: candidates, predicates and the
//! stream scanner that drives them.

pub mod candidate;
pub mod predicate;
pub mod matches;
pub mod stream;
pub mod witness;
