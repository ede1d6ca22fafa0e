[package]
name = "llm_stream"
version = "0.1.0"
edition = "2021"
publish = false

[dependencies]
serde_json = "*"
toml = "*"
uuid = { version = "*", features = ["v4"] }
serde = { version = "*", features = ["derive"] }
