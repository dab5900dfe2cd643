[package]
name = "graph_core"
version = "0.1.0"
edition = "2021"
publish = false

[dependencies]
fa2 = "*"
sha2 = "*"
unicode-normalization = "*"
wasm-bindgen = "*"
