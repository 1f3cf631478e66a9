[package]
name = "fastbu"
version = "0.1.0"
edition = "2021"
publish = false

[dependencies]
hashring = "0.3"
bincode = "1.3"
uuid = { version = "1", features = ["v4"] }
serde = { version = "1", features = ["derive"] }
tokio = { version = "1", features = ["full"] }
log = "0.4"
env_logger = "0.11"
clap = { version = "4", features = ["derive"] }
toml = "0.8"
thiserror = "1"
warp = "0.3"
async-trait = "0.1"
config = { version = "0.14", default-features = false }
chrono = { version = "0.4", features = ["serde"] }
