//! The Linux provider: the format of the kernel's region file.

pub mod map;
