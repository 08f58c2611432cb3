[package]
name = "hyperdrive_tracker"
version = "0.1.0"
edition = "2021"
publish = false

[dependencies]
chrono = "*"
clap = { version = "*", features = ["cargo"] }
csv = "*"
dashmap = "*"
dotenv = "*"
eyre = "*"
rust_decimal = "*"
serde = { version = "*", features = ["derive"] }
serde_json = "*"
tracing = "*"
tracing-subscriber = "*"
