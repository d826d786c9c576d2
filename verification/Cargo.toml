[package]
name = "scripted_proxy"
version = "0.1.0"
edition = "2021"
publish = false

[dependencies]
futures = "0.1"
tokio = "0.1"
rlua = "0.19"
serde = { version = "1", features = ["derive"] }
toml = "0.5"
