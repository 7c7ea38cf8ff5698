[package]
name = "tiered_vec"
version = "0.1.0"
edition = "2021"
publish = false

[dependencies]
futures = "*"
serde = { version = "*", features = ["derive"] }
serde_json = "*"
smallvec = { version = "*", features = ["serde"] }
tracing = "*"
tracing-subscriber = { version = "*", features = ["env-filter"] }
