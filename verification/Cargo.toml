[package]
name = "kernel_memory"
version = "0.1.0"
edition = "2021"
publish = false

[dependencies]
bitvec = "1"
x86_64 = { version = "0.15", default-features = false, features = ["instructions"] }
bootloader_api = "0.11"
spin = "0.9"
lazy_static = { version = "1", features = ["spin_no_std"] }
