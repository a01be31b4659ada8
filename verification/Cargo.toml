[package]
name = "shellcore"
version = "0.1.0"
edition = "2021"
publish = false

[dependencies]
fdt = "0.1.5"
xmas-elf = "0.9"
smoltcp = { version = "0.11", default-features = false, features = ["alloc", "medium-ethernet", "proto-ipv4", "socket-raw", "socket-udp", "socket-tcp"] }
spin = "0.9"
lazy_static = { version = "1.4", features = ["spin_no_std"] }
buddy_system_allocator = "0.9"
riscv = "0.10"
