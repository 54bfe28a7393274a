[package]
name = "wasm_solver"
version = "0.1.0"
edition = "2021"
publish = false

[dependencies]
wasm-bindgen = "*"
