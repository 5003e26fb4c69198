[package]
name = "rkev"
version = "1.0.0"
edition = "2021"
publish = false

[dependencies]
candle-core = "=0.9.2"
candle-nn = "=0.9.2"
indexmap = { version = "=2.14.2", features = ["serde"] }
reqwest = { version = "=0.12.28", default-features = false, features = ["json"] }
serde = { version = "=1.0.229", features = ["derive"] }
serde_json = { version = "=1.0.154", features = ["preserve_order"] }
tokenizers = { version = "=0.21.4", default-features = false, features = ["fancy-regex"] }
tokio = { version = "=1.54.1", features = ["rt"] }
zip = { version = "=2.6.1", default-features = false, features = ["deflate"] }
