[package]
name = "cross-locks"
version = "0.1.0"
edition = "2021"
publish = false

[dependencies]
async-trait = "0.1"
cfg-if = "1"
futures = "0.3"
js-sys = "0.3"
once_cell = "1"
thiserror = "1"
tokio = { version = "1", features = ["sync", "time", "rt", "rt-multi-thread"] }
wasm-bindgen = "0.2"
wasm-bindgen-futures = "0.4"
web-sys = { version = "0.3", features = ["AbortController", "AbortSignal", "Window"] }
