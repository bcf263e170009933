[package]
name = "buffer"
version = "0.1.0"
edition = "2021"
publish = false

[dependencies]
anyhow = "1"
lazy_static = "1.4"
log = "0.4"
parking_lot = "0.11"
rand = "=0.8.8"
seahash = "4.1"
similar = "=1.3.0"
smol = "=1.3.0"
tree-sitter = "=0.20.10"

[dev-dependencies]
tree-sitter-json = "0.20"
tree-sitter-rust = "0.20"
