[package]
name = "matter"
version = "0.1.0"
edition = "2021"
publish = false

[dependencies]
uuid = { version = "1", features = ["v4"] }
parking_lot = "0.12"
tracing = "0.1"
rust-i18n = "3"
wgpu = { version = "*", default-features = false, features = ["wgsl", "std"] }
