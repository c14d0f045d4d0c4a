[package]
name = "lsp_md"
version = "0.1.0"
edition = "2021"
publish = false

[dependencies]
ropey = { version = "=1.6.1", default-features = false }
tree-sitter = "=0.27.0"
tree-sitter-md = "=0.5.3"
tower-lsp = "*"
tokio = { version = "*", features = ["full"] }
dashmap = "*"
serde = { version = "*", features = ["derive"] }
serde_json = "*"
anyhow = "*"
env_logger = "*"
