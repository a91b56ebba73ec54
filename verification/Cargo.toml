[package]
name = "feox_vector"
version = "0.1.0"
edition = "2021"
publish = false

[dependencies]
feoxdb = "*"
feox-ann = "*"
serde = { version = "1", features = ["derive"] }
serde_json = "1"
thiserror = "*"
arc-swap = "1"
scc = "*"
