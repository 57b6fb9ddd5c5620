[package]
name = "stria"
version = "0.3.0"
edition = "2021"
publish = false

[dependencies]
clap = { version = "4", features = ["derive"] }
fxhash = "0.2"
mimalloc = "0.1"
rayon = "1"
regex = "1"
rusqlite = { version = "*", features = ["bundled"] }
serde_json = "1"
sha2 = "0.10"
walkdir = "2"
