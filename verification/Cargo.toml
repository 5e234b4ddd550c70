[package]
name = "yarn_lock_diff"
version = "0.1.0"
edition = "2021"
publish = false

[dependencies]
serde_yaml = "*"
serde = { version = "*", features = ["derive"] }
napi = { version = "*", features = ["serde-json"] }
napi-derive = "*"
