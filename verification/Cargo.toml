[package]
name = "eth_proxy"
version = "0.1.0"
edition = "2021"
publish = false

[dependencies]
serde_json = "*"
actix-web = { version = "*", default-features = false }
clap = { version = "*", features = ["derive", "env"] }
env_logger = "*"
log = "*"
reqwest = { version = "*", default-features = false }
tokio = { version = "*", features = ["macros", "rt-multi-thread", "time"] }
