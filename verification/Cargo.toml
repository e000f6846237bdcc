[package]
name = "easy_kernel"
version = "0.1.0"
edition = "2021"
publish = false

[dependencies]
buddy_system_allocator = "0.6"
lazy_static = "1.4"
log = "0.4"
riscv = "=0.8.0"
spin = "=0.7.2"
virtio-drivers = "0.1"
xmas-elf = "=0.7.0"
