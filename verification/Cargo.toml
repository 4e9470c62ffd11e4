[package]
name = "resonance_engine"
version = "0.1.0"
edition = "2021"
publish = false

[dependencies]
petgraph = "*"
serde = { version = "1", features = ["derive"] }
serde_json = "1"
rayon = "1"
libloading = "*"
notify = "*"
