//! What is particular to one platform's way of describing a target.

pub mod mach;
pub mod procfs;
pub mod ptrace;
