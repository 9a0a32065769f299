[package]
name = "tortoise_datastore"
version = "0.1.0"
edition = "2021"
publish = false

[dependencies]
crossbeam-skiplist = "0.1"
actix-web = { version = "4", features = ["openssl"] }
openssl = "0.10"
serde = { version = "1", features = ["derive"] }
serde_json = "1"
thiserror = "1"
tokio = { version = "1", features = ["full"] }
tracing = "0.1"
tracing-subscriber = "0.3"
