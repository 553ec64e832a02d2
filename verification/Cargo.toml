[package]
name = "jjmagit-language-server"
version = "0.1.0"
edition = "2021"
publish = false

[dependencies]
anyhow = "*"
tokio = { version = "*", features = ["full"] }
tower-lsp = "*"
serde_json = "*"
log = "*"
env_logger = "*"
