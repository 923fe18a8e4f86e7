[package]
name = "direlera_rs"
version = "0.1.0"
edition = "2021"
publish = false

[dependencies]
bincode = "=1.3.3"
encoding_rs = "=0.8.44"
serde = { version = "=1.0.229", features = ["derive"] }
toml = "=0.8.23"
tokio = { version = "=1.54.1", features = ["full"] }
tracing = "=0.1.44"
tracing-subscriber = { version = "=0.3.23", features = ["env-filter", "json"] }
color-eyre = "=0.6.5"
uuid = { version = "=1.29.0", features = ["v4"] }
rand = "0.8"
