[package]
name = "nbnet"
version = "0.1.0"
edition = "2021"
publish = false

[dependencies]
alloy-primitives = { version = "=1.7.3", features = ["k256", "serde"] }
alloy-consensus = { version = "=1.8.3", features = ["k256"] }
alloy-eips = "=1.8.3"
serde = { version = "=1.0.229", features = ["derive"] }
serde_json = "=1.0.154"
revm = { version = "=43.0.3", default-features = false, features = ["std"] }
vsdb = "=17.0.16"

[dev-dependencies]
k256 = { version = "=0.13.4", features = ["ecdsa"] }
rand = "=0.8.8"
