[package]
name = "bookmarks"
version = "0.1.0"
edition = "2021"
publish = false

[dependencies]
scraper = "*"
ego-tree = "*"
serde = { version = "*", features = ["derive"] }
serde_json = "*"
wasm-bindgen = "*"
js-sys = "*"
serde-wasm-bindgen = "*"
console_error_panic_hook = "*"
