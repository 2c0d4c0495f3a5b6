[package]
name = "duplicate_finder"
version = "0.3.0"
edition = "2021"
publish = false

[dependencies]
blake3 = "=1.8.7"
rayon = "=1.12.0"
serde = { version = "=1.0.229", features = ["derive"] }
serde_json = "=1.0.154"
walkdir = "=2.5.0"
trash = "=5.2.9"
