[package]
name = "redlib"
version = "0.1.0"
edition = "2021"
publish = false

[dependencies]
askama = { version = "0.12", default-features = false }
base2048 = "2"
bincode = "1"
bytes = "1"
cookie = "0.18"
futures-lite = "2"
http-body = "1"
http-body-util = "0.1"
hyper = { version = "0.14", features = ["full"] }
time = "0.3"
tokio = { version = "1", features = ["time", "rt", "macros"] }
url = "2"
