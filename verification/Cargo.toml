[package]
name = "repotower"
version = "0.5.0"
edition = "2021"
publish = false

[dependencies]
petgraph = "0.8.3"
serde = { version = "1", features = ["derive"] }
serde_json = "1"
ignore = "*"
tree-sitter = "*"
tree-sitter-c = "*"
tree-sitter-cpp = "*"
tree-sitter-c-sharp = "*"
tree-sitter-go = "*"
tree-sitter-java = "*"
tree-sitter-javascript = "0.25.0"
tree-sitter-python = "*"
tree-sitter-rust = "*"
tree-sitter-typescript = "0.23.2"
sha2 = "*"
crc32fast = "*"
zip = { version = "*", default-features = false, features = ["deflate"] }

[dev-dependencies]
tempfile = "*"
