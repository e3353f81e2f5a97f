[package]
name = "bsv_language_server"
version = "0.1.0"
edition = "2021"
publish = false

[dependencies]
regex = "1"
dashmap = "5"
lsp-types = "0.94"
tree-sitter = "0.20"
tower-lsp = "0.20"
tokio = { version = "1", features = ["full"] }
async-trait = "0.1"
log = "0.4"
env_logger = "0.10"
