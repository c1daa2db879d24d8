[package]
name = "loupe"
version = "0.1.0"
edition = "2021"
publish = false

[dependencies]
anyhow = "1"
chrono = "0.4"
http = "0.2"
jmespatch = "0.3"
js-sys = "0.3"
log = "0.4"
number_prefix = "0.4"
serde = { version = "1", features = ["derive"] }
serde_derive = "1"
serde-wasm-bindgen = "0.1"
thiserror = "1"
url = "2"
wasm-bindgen = "0.2"
wasm-logger = "0.2"
web-sys = { version = "0.3", features = ["Document", "Element", "Window"] }
wee_alloc = "0.4"
yew = { version = "0.16", features = ["web_sys"] }
