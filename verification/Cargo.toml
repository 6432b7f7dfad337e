[package]
name = "relay"
version = "0.1.0"
edition = "2021"
publish = false

[dependencies]
tokio = { version = "1", features = ["full"] }
futures = "0.3"
axum = { version = "*", features = ["ws"] }
tower-http = { version = "*", features = ["fs", "validate-request"] }
num_cpus = "1"
