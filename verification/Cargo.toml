[package]
name = "websweeper"
version = "0.1.0"
edition = "2021"
publish = false

[dependencies]
rand = "0.8"
flate2 = "1"
ammonia = "3"
serde = { version = "1", features = ["derive"] }
serde_json = "1"
tokio = { version = "1", features = ["full"] }
warp = { version = "0.3", features = ["tls"] }
futures = "0.3"
hyper = "0.14"
http = "0.2"
