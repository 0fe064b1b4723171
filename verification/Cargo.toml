[package]
name = "customs-core"
version = "0.1.0"
edition = "2021"
publish = false

[dependencies]
tree-sitter = "*"
tree-sitter-python = "*"
serde = { version = "1", features = ["derive"] }
toml = "*"
thiserror = "*"
anyhow = "1"
clap = { version = "4", features = ["derive"] }
walkdir = "2"
serde_json = "1"
tokio = { version = "1", features = ["rt-multi-thread", "io-std", "time", "sync", "macros"] }
tower-lsp-server = "*"
