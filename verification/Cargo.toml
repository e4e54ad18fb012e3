[package]
name = "surf-core"
version = "0.3.0"
edition = "2021"
publish = false

[dependencies]
sha2 = "0.10"
tree-sitter = "*"
tree-sitter-rust = "0.24"
tree-sitter-typescript = "*"
tree-sitter-python = "*"
tree-sitter-go = "*"
glob = "0.3"
serde = { version = "1", features = ["derive"] }
serde_json = "1"
serde_yaml = "*"
toml = "*"
clap = { version = "4", features = ["derive"] }
anyhow = "1"
