[package]
name = "balloon_editor"
version = "0.1.0"
edition = "2021"
publish = false

[dependencies]
anyhow = "=1.0.104"
encoding_rs = "=0.8.44"
image = { version = "=0.25.10", default-features = false, features = ["png"] }
png = "=0.17.16"
regex = "1"
serde = { version = "=1.0.229", features = ["derive"] }
serde_json = "=1.0.154"
