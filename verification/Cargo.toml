[package]
name = "font_maker"
version = "0.1.0"
edition = "2021"
publish = false

[dependencies]
png = "0.17"
clap = { version = "4", features = ["derive"] }
embedded-graphics = "0.8"
embedded-graphics-simulator = { version = "*", default-features = false }
wasm-bindgen = "0.2"
web-sys = { version = "0.3", features = ["console"] }
console_error_panic_hook = "0.1"
