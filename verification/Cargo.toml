[package]
name = "zif_tiff"
version = "0.1.0"
edition = "2021"
publish = false

[dependencies]
http = "1"
http-body = "1"
http-body-util = "0.1"
tower-service = "0.3"
tokio = { version = "1", features = ["fs", "io-util", "rt"] }
