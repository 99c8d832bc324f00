//! Helpers on sequences that the merge operators share.

pub mod acc_filter;
pub mod merge;
