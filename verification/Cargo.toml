[package]
name = "sudoku"
version = "0.1.0"
edition = "2021"
publish = false

[dependencies]
instant = "0.1"
json = "0.12"
rand = "0.8"
wasm-bindgen = "0.2"
wee_alloc = "0.4"
