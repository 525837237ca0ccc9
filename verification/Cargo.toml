[package]
name = "shares"
version = "0.1.0"
edition = "2021"
publish = false

[dependencies]
futures = "=0.3.34"
http = "=0.2.12"
hyper = { version = "=0.14.32", features = ["server", "http1", "tcp", "stream"] }
tokio = { version = "=1.53.2", features = ["rt-multi-thread", "macros", "net", "time"] }
cookie = "=0.18.2"
time = "=0.3.55"
url = "=2.5.8"

[dev-dependencies]
tar = "=0.4.46"
