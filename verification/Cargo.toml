[package]
name = "bni_ls"
version = "0.1.0"
edition = "2021"
publish = false

[dependencies]
serde = { version = "=1.0.229", features = ["derive"] }
serde_json = "=1.0.151"
serde_repr = "=0.1.21"
url = { version = "=2.5.8", features = ["serde"] }
log = "=0.4.34"
env_logger = "=0.11.11"
tree-sitter = "=0.27.0"
