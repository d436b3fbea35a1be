[package]
name = "mical"
version = "0.1.0"
edition = "2021"
publish = false

[dependencies]
smallvec = "1"
serde_json = "1"
clap = { version = "4", features = ["derive"] }
