[package]
name = "rust-quepaxa"
version = "0.1.0"
edition = "2021"
publish = false

[dependencies]
sha2 = "0.10"
postcard = { version = "1", features = ["alloc", "use-std"] }
serde = { version = "1", features = ["derive"] }
serde_json = "1"
tokio = { version = "1", features = ["rt-multi-thread", "net", "io-util", "time", "sync", "macros"] }
tokio-rustls = { version = "0.26", default-features = false, features = ["ring", "logging", "tls12"] }
tokio-util = "0.7"
futures-util = "0.3"
tracing = "0.1"
