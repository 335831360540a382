[package]
name = "scheduler_core"
version = "0.1.0"
edition = "2021"
publish = false

[dependencies]
abi_stable = "*"
anyhow = "*"
axum = "*"
clap = { version = "*", features = ["derive"] }
serde = { version = "*", features = ["derive"] }
serde_json = "*"
serde-saphyr = "*"
tokio = { version = "*", features = ["macros", "rt-multi-thread", "net"] }
