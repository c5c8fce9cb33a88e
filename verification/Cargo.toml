[package]
name = "serde_reflect"
version = "0.1.0"
edition = "2021"
publish = false

[dependencies]
serde = "1"
erased-serde = "0.3"

[dev-dependencies]
serde_json = "1"
proptest = { version = "1", default-features = false, features = ["std"] }
