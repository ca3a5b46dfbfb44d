[package]
name = "logigator_sim"
version = "0.1.0"
edition = "2021"
publish = false

[dependencies]
web-time = "1"
rayon = "1"
serde = { version = "1", features = ["derive"] }
serde_json = "1"
clap = { version = "4", features = ["derive"] }
thiserror = "2"
napi = "3"
napi-derive = "3"
wasm-bindgen = "0.2"
wasm-bindgen-futures = "0.4"
js-sys = "0.3"
serde-wasm-bindgen = "0.6"
