[package]
name = "kernel_alloc"
version = "0.1.0"
edition = "2021"
publish = false

[dependencies]
spin = "=0.12.3"
lazy_static = "=1.5.1"
volatile = "=0.2.7"
x86_64 = "=0.15.5"
bootloader = "=0.9.35"
