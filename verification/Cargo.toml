[package]
name = "loom"
version = "0.7.2"
edition = "2021"
publish = false

[dependencies]
generator = "0.8"
rustc-hash = "2"
scoped-tls = "1.0"
serde = { version = "1", features = ["derive"] }
serde_json = "1"
smallvec = "1"
tracing = "0.1"
tracing-subscriber = { version = "0.3", features = ["env-filter"] }
zerocopy = { version = "0.8", features = ["derive"] }
