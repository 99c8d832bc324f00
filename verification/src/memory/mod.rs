//! The model of a target's memory: its mapped pages, and the interfaces
//! through which it is read, written and frozen.

pub mod access;
pub mod lock;
pub mod map;
