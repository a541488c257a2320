[package]
name = "meltos_wasm"
version = "0.1.0"
edition = "2021"
publish = false

[dependencies]
async-trait = "0.1"
console_error_panic_hook = "0.1"
rusqlite = "*"
serde = { version = "1", features = ["derive"] }
serde_json = "1"
wasm-bindgen = "0.2"
wasm-bindgen-futures = "0.4"
