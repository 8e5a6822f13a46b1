[package]
name = "skkserv"
version = "0.1.0"
edition = "2021"
publish = false

[dependencies]
anyhow = "*"
bytes = "*"
clap = { version = "*", features = ["derive"] }
futures = "*"
thiserror = "*"
time = { version = "*", features = ["local-offset"] }
tokio = { version = "*", features = ["rt", "net", "io-util", "macros"] }
tokio-util = { version = "*", features = ["codec"] }
tracing = "*"
tracing-subscriber = "*"
