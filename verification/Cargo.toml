[package]
name = "follow_crawl"
version = "0.1.0"
edition = "2021"
publish = false

[dependencies]
atrium-api = "=0.25.8"
atrium-xrpc-client = "*"
clap = { version = "=4.6.7", features = ["derive", "env"] }
tokio = { version = "=1.53.2", features = ["full"] }
tracing = "=0.1.44"
tracing-subscriber = { version = "=0.3.23", features = ["env-filter"] }
url = "=2.5.8"
