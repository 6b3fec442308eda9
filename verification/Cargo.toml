[package]
name = "rnix"
version = "0.1.0"
edition = "2021"
publish = false

[dependencies]
xmas-elf = "0.7.0"
riscv = "0.10"
lazy_static = "1.4"
bitflags = "1.2.1"
