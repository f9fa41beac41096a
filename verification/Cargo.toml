[package]
name = "quinn_wasm"
version = "0.1.0"
edition = "2021"
publish = false

[dependencies]
anyhow = "=1.0.104"
bytes = { version = "=1.12.1", features = ["serde"] }
futures-util = { version = "=0.3.34", features = ["sink"] }
postcard = { version = "=1.1.3", features = ["use-std"] }
quinn = { version = "=0.10.2", default-features = false, features = ["runtime-tokio", "ring"] }
serde = { version = "=1.0.229", features = ["derive"] }
tokio = { version = "=1.54.1", features = ["time", "rt"] }
tokio-tungstenite-wasm = "=0.9.0"
tracing = "=0.1.44"
wasm-bindgen-futures = "=0.4.80"
wasmtimer = "=0.4.3"
