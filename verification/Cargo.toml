[package]
name = "sv39_mm"
version = "0.1.0"
edition = "2021"
publish = false

[dependencies]
riscv = "0.10"
spin = "0.7"
lazy_static = "1.4"
buddy_system_allocator = "0.6"
