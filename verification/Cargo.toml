[package]
name = "sightglass"
version = "0.1.0"
edition = "2021"
publish = false

[dependencies]
anyhow = "1"
blake3 = { version = "1", features = ["pure"] }
enquote = "1"
regex = "1"
tar = "0.4"
thiserror = "1"
