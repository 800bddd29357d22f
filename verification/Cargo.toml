[package]
name = "tether-core"
version = "0.1.0"
edition = "2021"
publish = false

[dependencies]
anyhow = "1"
clap = { version = "4", features = ["derive"] }
dirs = "*"
iroh = "*"
rand = "0.9"
serde = { version = "1", features = ["derive"] }
serde_json = "1"
sys-locale = "*"
tokio = { version = "1", features = ["full"] }
