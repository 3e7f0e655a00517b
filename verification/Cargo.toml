[package]
name = "os_core"
version = "0.1.0"
edition = "2021"
publish = false

[dependencies]
riscv = "*"
spin = "*"
sbi-rt = "*"
lazy_static = "*"
