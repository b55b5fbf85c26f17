[package]
name = "robrowser-remoteclient"
version = "0.1.0"
edition = "2021"
publish = false

[dependencies]
axum = "=0.8.9"
bytes = "=1.12.1"
clap = { version = "=4.6.7", features = ["derive", "env"] }
encoding_rs = "=0.8.44"
flate2 = "=1.1.10"
memmap2 = "=0.9.12"
regex = "=1.13.1"
tokio = { version = "=1.54.1", features = ["full"] }
tower-http = { version = "=0.6.11", features = ["cors"] }
