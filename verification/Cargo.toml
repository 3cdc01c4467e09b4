[package]
name = "redacted"
version = "0.1.0"
edition = "2021"
publish = false

[dependencies]
regex = "=1.13.1"
wasm-bindgen = "=0.2.92"
js-sys = "=0.3.69"
console_error_panic_hook = "=0.1.7"
walkdir = "=2.5.0"
