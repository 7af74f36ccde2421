[package]
name = "rustos"
version = "0.1.0"
edition = "2021"

[dependencies]
bootloader = "=0.9.35"
lazy_static = "=1.5.1"
spin = "=0.9.9"
x86_64 = "=0.15.5"
