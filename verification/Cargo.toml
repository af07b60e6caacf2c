[package]
name = "dupehound"
version = "0.1.2"
edition = "2021"
publish = false

[dependencies]
anyhow = "=1.0.104"
clap = { version = "=4.6.7", features = ["derive"] }
owo-colors = { version = "=4.4.0", features = ["supports-colors"] }
rayon = "=1.12.0"
serde = { version = "=1.0.229", features = ["derive"] }
serde_json = "=1.0.154"
streaming-iterator = "=0.1.9"
terminal_size = "=0.4.4"
tree-sitter = "=0.27.1"
tree-sitter-go = "*"
tree-sitter-java = "*"
tree-sitter-javascript = "*"
tree-sitter-python = "*"
tree-sitter-rust = "*"
tree-sitter-typescript = "*"
unicode-width = "=0.2.3"
