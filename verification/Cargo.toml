[package]
name = "symdex"
version = "0.1.0"
edition = "2021"
publish = false

[dependencies]
anyhow = "*"
crossbeam = "*"
parking_lot = "*"
serde = { version = "*", features = ["derive"] }
streaming-iterator = "*"
toml = "*"
tree-sitter = "*"
tree-sitter-c = "*"
tree-sitter-go = "*"
tree-sitter-haskell = "*"
tree-sitter-python = "*"
tree-sitter-rust = "*"
tree-sitter-typescript = "*"
