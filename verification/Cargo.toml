[package]
name = "chronos_kernel"
version = "0.2.0"
edition = "2021"
publish = false

[dependencies]
xmas-elf = "*"
riscv = "*"
sbi-rt = { version = "*", features = ["legacy"] }
spin = "*"
lazy_static = { version = "*", features = ["spin_no_std"] }
buddy_system_allocator = "*"
bitflags = "*"
