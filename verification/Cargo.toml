[package]
name = "specmut"
version = "0.1.0"
edition = "2021"
publish = false

[dependencies]
serde = { version = "1", features = ["derive"] }
serde_json = "1"
clap = { version = "4", features = ["derive"] }
toml = "0.8"
tempfile = "3"
thiserror = "1"
num-bigint = "0.4"
tracing-subscriber = "0.3"
