[package]
name = "rust_graph"
version = "0.1.0"
edition = "2021"
publish = false

[dependencies]
indexmap = "1"
ordermap = "0.4"
itertools = "0.7"
rand = "0.5"
serde = { version = "1", features = ["derive"] }
bincode = "1"
time = "0.1"
