[package]
name = "sudachi"
version = "0.1.0"
edition = "2021"
publish = false

[dependencies]
ruzstd = "*"
rsmarisa = "*"
indexmap = "*"
serde = { version = "1", features = ["derive"] }
wasm-bindgen = "*"
serde-wasm-bindgen = "*"
console_error_panic_hook = "*"

[dev-dependencies]
zstd = "*"
