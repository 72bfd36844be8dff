[package]
name = "chord_processor"
version = "0.1.0"
edition = "2021"
publish = false

[dependencies]
tree-sitter = "*"
wasm-bindgen = "*"

[dev-dependencies]
serde_json = "*"
