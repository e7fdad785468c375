[package]
name = "the_game"
version = "0.1.0"
edition = "2021"
publish = false

[dependencies]
bmp = "=0.5.0"
wasm-bindgen = "=0.2.92"
