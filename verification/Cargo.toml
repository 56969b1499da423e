[package]
name = "git-ast"
version = "0.1.0"
edition = "2021"
publish = false

[dependencies]
serde_json = "1"
tree-sitter = "0.25"
tree-sitter-rust = "0.24"
tree-sitter-html = "0.23"
