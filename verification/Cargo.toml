[package]
name = "tml"
version = "0.1.0"
edition = "2021"
publish = false

[dependencies]
console_error_panic_hook = "*"
rustyline = "*"
rustyline-derive = "*"
wasm-bindgen = "*"
wee_alloc = "*"
