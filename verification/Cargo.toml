[package]
name = "rust_dsp"
version = "0.1.0"
edition = "2021"
publish = false

[dependencies]
wasm-bindgen = "*"
js-sys = "*"
console_error_panic_hook = "*"
bytemuck = { version = "*", features = ["must_cast"] }
