//! Process memory inspection: address offsets, memory pages and their merge,
//! match candidates, predicates and the stream scanner.

pub mod common;
pub mod memory;
pub mod platform;
pub mod scan;
pub mod util;
