[package]
name = "atomic_slotmap"
version = "0.1.0"
edition = "2021"
publish = false

[dependencies]
slotmap = "1"
libfuzzer-sys = { version = "0.4", features = ["arbitrary-derive"] }
