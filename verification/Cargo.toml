[package]
name = "sudachi"
version = "0.1.0"
edition = "2021"
publish = false

[dependencies]
aho-corasick = "1"
nom = "7"
serde = { version = "1", features = ["derive"] }
serde_json = "1"
unicode-normalization = "0.1"
