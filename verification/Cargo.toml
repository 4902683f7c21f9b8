[package]
name = "ctxctl"
version = "0.3.0"
edition = "2021"
publish = false

[dependencies]
regex = "1"
tiktoken-rs = "*"
tree-sitter = "*"
tree-sitter-rust = "*"
tree-sitter-typescript = "*"
tree-sitter-python = "*"
tree-sitter-go = "*"
tree-sitter-javascript = "*"
tree-sitter-java = "*"
tree-sitter-c = "*"
tree-sitter-cpp = "*"
tree-sitter-c-sharp = "*"
tree-sitter-ruby = "*"
tree-sitter-lua = "*"
tree-sitter-html = "*"
tree-sitter-css = "*"
tree-sitter-md = "*"
serde = { version = "1", features = ["derive"] }
serde_json = "1"
clap = { version = "4", features = ["derive"] }
shell-words = "1"
toml = "*"
thiserror = "*"
