[package]
name = "edge_vectordb"
version = "0.1.0"
edition = "2021"
publish = false

[dependencies]
bitvec = "1"
tokio = { version = "1", features = ["rt-multi-thread", "sync", "macros"] }
rayon = "1"
serde_json = "1"
prost-types = "*"
tonic = "*"
anyhow = "1"
thiserror = "1"
tracing = "0.1"
