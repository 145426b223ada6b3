[package]
name = "highlight_cache"
version = "0.1.0"
edition = "2021"
publish = false

[dependencies]
serde = { version = "*", features = ["derive"] }
serde_json = "*"
tree-sitter = "*"
tree-sitter-highlight = "*"
tree-sitter-cpp = "*"
tree-sitter-javascript = "*"
tree-sitter-python = "*"
jni = "*"
