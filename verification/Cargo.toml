[package]
name = "pubgrub"
version = "0.4.0"
edition = "2021"
publish = false

[dependencies]
log = "0.4"
serde = { version = "1", features = ["derive"] }

[dev-dependencies]
serde_json = "1"
