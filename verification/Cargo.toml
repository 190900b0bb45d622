[package]
name = "rsomics-voterank"
version = "0.1.0"
edition = "2021"
publish = false

[dependencies]
clap = { version = "=4.6.7", features = ["derive"] }
serde_json = "=1.0.154"
rustc_apfloat = "0.2"
