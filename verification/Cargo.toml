[package]
name = "lumiere"
version = "0.1.0"
edition = "2021"
publish = false

[dependencies]
toml = "0.8"
subtle = "2"
getrandom = "0.3"
rand = "0.9"
serde = { version = "1", features = ["derive"] }
serde_json = "1"
thiserror = "2"
tokio = { version = "1", features = ["full"] }
tokio-util = { version = "0.7", features = ["rt"] }
futures = "0.3"
async-trait = "0.1"
axum = { version = "0.8", features = ["ws"] }
tower-http = { version = "0.6", features = ["cors", "fs", "limit", "timeout", "trace"] }
tracing = "0.1"
tracing-subscriber = { version = "0.3", features = ["env-filter"] }
directories = "6"
tempfile = "3"
rust-embed = "8"
btleplug = "0.11"
dioxus = { version = "0.6", features = ["web"] }
gloo-net = "0.6"
gloo-timers = { version = "0.3", features = ["futures"] }
web-sys = { version = "0.3", features = ["Crypto", "History", "Location", "Storage", "Window"] }
wasm-bindgen = "0.2"
