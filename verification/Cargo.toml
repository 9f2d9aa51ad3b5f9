[package]
name = "gin_rummy"
version = "0.1.3"
edition = "2021"
publish = false

[dependencies]
rand = "0.10"
serde = { version = "1", features = ["derive"] }
serde_with = "3"
thiserror = "2"

[dev-dependencies]
serde_json = "1"
