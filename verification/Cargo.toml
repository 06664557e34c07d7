[package]
name = "http_engine"
version = "0.1.0"
edition = "2021"
publish = false

[dependencies]
url = "*"
tokio = { version = "*", features = ["net", "io-util", "rt", "rt-multi-thread", "macros"] }
tokio-rustls = "*"
webpki-roots = "*"
