[package]
name = "rikka"
version = "0.1.0"
edition = "2021"
publish = false

[dependencies]
rand = "*"
percent-encoding = "*"
time = "*"
serde = { version = "*", features = ["derive"] }
serde_json = "*"
log = "*"
pretty_env_logger = "*"
hyper = { version = "0.14", features = ["client", "http1", "http2", "tcp"] }
hyper-tls = "0.5"
tokio = { version = "*", features = ["rt", "rt-multi-thread", "macros", "net", "time"] }
