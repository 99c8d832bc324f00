[package]
name = "procmem"
version = "0.1.0"
edition = "2021"
publish = false

[dependencies]
libc = "=0.2.191"
mach = "0.3"
thiserror = "=1.0.69"
