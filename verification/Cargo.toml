[package]
name = "arcgraph_storage"
version = "0.1.0"
edition = "2021"
publish = false

[dependencies]
bytes = "1"
crc32c = "0.6"
dashmap = "6"
parking_lot = "0.12"
rayon = "1"
thiserror = "1"
tracing = "0.1"
