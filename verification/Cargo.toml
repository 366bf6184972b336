[package]
name = "session_pool"
version = "0.1.0"
edition = "2021"
publish = false

[dependencies]
ort = { version = "=2.0.0-rc.13", default-features = false, features = ["std"] }
parking_lot = "=0.12.5"
tokio = { version = "=1.53.2", features = ["sync"] }
