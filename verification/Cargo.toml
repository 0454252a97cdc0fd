[package]
name = "saql_editor"
version = "0.1.0"
edition = "2021"
publish = false

[dependencies]
arrow = "*"
axum = { version = "*", features = ["multipart"] }
console_error_panic_hook = "*"
serde = { version = "*", features = ["derive"] }
serde_json = "*"
tempfile = "*"
tokio = { version = "*", features = ["full"] }
tower-http = { version = "*", features = ["fs"] }
wasm-bindgen = "*"
