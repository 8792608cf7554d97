[package]
name = "runstore"
version = "0.1.0"
edition = "2021"
publish = false

[dependencies]
anyhow = "*"
async-fs = "*"
async-std = "*"
futures = "*"
serde = { version = "*", features = ["derive"] }
serde_json = "*"
