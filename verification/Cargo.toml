[package]
name = "os"
version = "0.1.0"
edition = "2021"
publish = false

[dependencies]
xmas-elf = "=0.10.0"
zerocopy = { version = "=0.8.63", default-features = false }
bitflags = "=2.13.2"
lazy_static = { version = "=1.5.1", features = ["spin_no_std"] }
log = "=0.4.35"
riscv = "=0.16.1"
spin = "=0.12.3"
virtio-drivers = "=0.13.0"
clap = { version = "=4.6.7", features = ["derive"] }
