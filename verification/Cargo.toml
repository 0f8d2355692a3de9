[package]
name = "nrtm_parser"
version = "0.1.0"
edition = "2021"
publish = false

[dependencies]
chardetng = "=1.0.0"
encoding_rs = "=0.8.44"
regex = "=1.13.1"
re-delimiter-codec = "=0.1.1"
tokio = { version = "=1.54.1", features = ["io-util", "fs", "rt"] }
tokio-util = { version = "=0.7.20", features = ["codec"] }
futures-util = "=0.3.34"

[dev-dependencies]
tokio-test = "=0.4.6"
