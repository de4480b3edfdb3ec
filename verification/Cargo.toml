[package]
name = "possum"
version = "0.1.0"
edition = "2021"
publish = false

[dependencies]
console_error_panic_hook = "0.1"
logos = "0.12"
thiserror = "1"
wasm-bindgen = "0.2"
