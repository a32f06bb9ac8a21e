[package]
name = "tree_context"
version = "0.1.0"
edition = "2021"
publish = false

[dependencies]
ignore = "0.4"
tree-sitter = "0.20"
