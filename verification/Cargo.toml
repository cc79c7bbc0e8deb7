[package]
name = "wordc"
version = "0.1.0"
edition = "2021"
publish = false

[dependencies]
ropey = "1"
tree-sitter = "0.22"
tree-sitter-rust = "0.21"
hunspell-rs = "*"
tower-lsp = "*"
tokio = { version = "1", features = ["full"] }
serde_json = "1"
tracing = "0.1"
tracing-appender = "0.2"
tracing-subscriber = { version = "0.3", features = ["env-filter"] }
