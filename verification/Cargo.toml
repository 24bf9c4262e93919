[package]
name = "framed_echo"
version = "0.1.0"
edition = "2021"
publish = false

[dependencies]
bytes = "1"
tokio-util = { version = "0.7", features = ["codec"] }
tokio = { version = "1", features = ["rt-multi-thread", "macros", "net", "io-util"] }
futures = "0.3"
