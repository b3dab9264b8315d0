[package]
name = "reactive_core"
version = "0.1.0"
edition = "2021"
publish = false

[dependencies]
console_error_panic_hook = "0.1"
leptos = { version = "0.6", features = ["csr"] }
tracing = "0.1"
web-sys = "0.3"
