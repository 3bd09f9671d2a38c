[package]
name = "context_index"
version = "0.1.0"
edition = "2021"
publish = false

[dependencies]
anyhow = "1"
hex = "0.4"
regex = "1"
serde_json = "1"
sha2 = "0.10"
walkdir = "2"
