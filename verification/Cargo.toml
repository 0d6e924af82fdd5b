[package]
name = "parsec"
version = "0.1.0"
edition = "2021"
publish = false

[dependencies]
tree-sitter = "*"
tree-sitter-julia = "*"
tower-lsp = "*"
tokio = { version = "*", features = ["full"] }
tracing = "*"
tracing-appender = "*"
tracing-subscriber = { version = "*", features = ["env-filter"] }
ignore = "*"
dirs = "*"
url = "*"
dashmap = "*"
parking_lot = "*"
