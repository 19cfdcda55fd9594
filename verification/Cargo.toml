[package]
name = "rust_map"
version = "0.1.0"
edition = "2021"

[dependencies]
parking_lot = "0.12"

[dev-dependencies]
rand = "0.9"
