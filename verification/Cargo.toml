[package]
name = "ce_gates"
version = "0.1.0"
edition = "2021"
publish = false

[dependencies]
serde = { version = "1", features = ["derive"] }
serde_json = "1"
tree-sitter = "*"
tree-sitter-language = "*"
tree-sitter-c = "*"
tree-sitter-cpp = "*"
tree-sitter-haskell = "*"
tree-sitter-html = "*"
tree-sitter-java = "*"
tree-sitter-lua = "*"
tree-sitter-r = "*"
