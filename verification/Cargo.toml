[package]
name = "exomem"
version = "0.1.0"
edition = "2021"
publish = false

[dependencies]
base64 = "0.22"
blake3 = "1"
bytes = "1"
clap = { version = "4", features = ["derive"] }
