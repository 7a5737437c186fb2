[package]
name = "svgm"
version = "0.3.0"
edition = "2021"
publish = false

[dependencies]
clap = { version = "4", features = ["derive"] }
console = "0.15"
indicatif = "0.17"
serde = { version = "1", features = ["derive"] }
toml = "0.8"
napi = { version = "2", default-features = false, features = ["napi4"] }
napi-derive = "2"
wasm-bindgen = "0.2"
serde-wasm-bindgen = "0.6"
