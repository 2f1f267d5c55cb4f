[package]
name = "deferred_cache"
version = "0.1.0"
edition = "2021"
publish = false

[dependencies]
byteorder = "=1.5.0"
cgmath = "=0.18.0"
gl = "=0.14.0"
glutin = "=0.32.3"
image = { version = "=0.25.10", default-features = false, features = ["png", "jpeg"] }
libc = "=0.2.191"
time = "=0.3.55"
