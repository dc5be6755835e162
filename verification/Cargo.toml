[package]
name = "restate_util"
version = "0.1.0"
edition = "2021"
publish = false

[dependencies]
slab = "0.4"
serde = "1"
serde_json = "1"
futures = "0.3"
tokio = { version = "1", features = ["sync", "rt"] }
derive_more = { version = "2", features = ["debug"] }
datafusion = { version = "*", default-features = false }
