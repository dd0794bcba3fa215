[package]
name = "ndjson_stream"
version = "0.1.0"
edition = "2021"
publish = false

[dependencies]
serde_json = "1"
actix-web = { version = "4", default-features = false, features = ["macros"] }
reqwest = { version = "0.12", default-features = false, features = ["stream"] }
tokio = { version = "1", default-features = false, features = ["rt", "macros"] }
futures = "0.3"
