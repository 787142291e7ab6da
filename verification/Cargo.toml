[package]
name = "rusty_space"
version = "0.1.0"
edition = "2021"
publish = false

[dependencies]
three-d = "=0.15.0"
three-d-asset = { version = "=0.5.0", features = ["jpeg", "png"] }
tokio = { version = "=1.54.1", features = ["macros", "rt-multi-thread"] }
log = "=0.4.34"
console_log = "=1.1.0"
console_error_panic_hook = "=0.1.7"
wasm-bindgen = "=0.2.129"
