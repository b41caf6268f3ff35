[package]
name = "apisql"
version = "0.1.0"
edition = "2021"
publish = false

[dependencies]
regex = "=1.13.1"
serde = { version = "=1.0.229", features = ["derive"] }
serde_json = "=1.0.154"
thiserror = "=2.0.21"
anyhow = "=1.0.104"
clap = { version = "=4.6.7", features = ["derive"] }
reqwest = { version = "=0.13.5", default-features = false, features = ["blocking", "json"] }
tokio = { version = "=1.54.1", features = ["rt-multi-thread", "macros", "io-std"] }
tower-lsp = "=0.20.0"
wasm-bindgen = "=0.2.129"
serde-wasm-bindgen = "=0.6.5"
