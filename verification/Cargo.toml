[package]
name = "ls_core"
version = "0.1.0"
edition = "2021"
publish = false

[dependencies]
tree-sitter = "*"
tree-sitter-rust = "*"
tree-sitter-cpp = "*"
tree-sitter-java = "*"
tree-sitter-javascript = "*"
tree-sitter-python = "*"
tree-sitter-typescript = "*"
tree-sitter-bash = "*"
wasm-bindgen = "*"
console_error_panic_hook = "*"
