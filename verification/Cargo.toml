[package]
name = "storage_wizard"
version = "0.1.0"
edition = "2021"
publish = false

[dependencies]
blake3 = "1"
clap = { version = "4", features = ["derive"] }
colored = "2"
indicatif = { version = "0.17", features = ["rayon"] }
jwalk = "0.8"
serde = { version = "1", features = ["derive"] }
serde_json = "1"
