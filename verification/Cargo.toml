[package]
name = "symbol_pool"
version = "0.1.0"
edition = "2021"
publish = false

[dependencies]
heapsize = "*"
lazy_static = "1"
parking_lot = "*"
serde = "1"
