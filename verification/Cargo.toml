[package]
name = "luci"
version = "0.1.0"
edition = "2021"
publish = false

[dependencies]
bimap = "=0.6.3"
serde = { version = "=1.0.229", features = ["derive"] }
serde_json = "=1.0.154"
serde_yaml = "=0.9.34"
humantime-serde = "=1.1.1"
elfo = { version = "=0.1.40", features = ["test-util"] }
elfo-utils = "=0.2.4"
tokio = { version = "=1.54.1", features = ["time", "macros", "rt"] }
futures = "=0.3.34"
tracing = "=0.1.44"
tracing-subscriber = { version = "=0.3.23", features = ["env-filter"] }
clap = { version = "=4.6.7", features = ["derive"] }
dot-writer = "=0.1.4"
thiserror = "=1.0.69"
