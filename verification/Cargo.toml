[package]
name = "ijson"
version = "0.1.0"
edition = "2021"
publish = false

[dependencies]
hashbrown = "*"
dashmap = { version = "*", features = ["raw-api"] }
indexmap = "*"
lazy_static = "*"
ctor = "*"
serde = "*"
serde_json = "*"

[dev-dependencies]
rand = "0.8"
