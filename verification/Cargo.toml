[package]
name = "cloud_init_ext"
version = "0.1.0"
edition = "2021"
publish = false

[dependencies]
actix-web = "*"
anyhow = "*"
dwbhk = "*"
env_logger = "*"
log = "*"
mysql = "*"
serde = { version = "*", features = ["derive"] }
serde_yaml = "*"
thiserror = "*"
tokio = { version = "*", features = ["rt-multi-thread"] }
