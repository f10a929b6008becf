[package]
name = "sllv-core"
version = "0.1.0"
edition = "2021"
publish = false

[dependencies]
anyhow = "1"
clap = { version = "4", features = ["derive"] }
crc32fast = "1"
hex = "0.4"
image = { version = "*", default-features = false, features = ["png"] }
nalgebra = "*"
reed-solomon-erasure = "*"
serde = { version = "1", features = ["derive"] }
serde_json = "1"
sha2 = "0.10"
tar = "0.4"
thiserror = "1"
walkdir = "2"
