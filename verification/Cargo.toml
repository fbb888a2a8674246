[package]
name = "thapthim"
version = "0.1.0"
edition = "2021"
publish = false

[dependencies]
regex = "1"
fancy-regex = "0.14"
daachorse = "1"
rustc-hash = "2"
bincode = "1"
serde = { version = "1", features = ["derive"] }
