[package]
name = "bijoux"
version = "0.1.0"
edition = "2021"
publish = false

[dependencies]
thiserror = "2"
wasm-bindgen = "0.2"
js-sys = "0.3"
