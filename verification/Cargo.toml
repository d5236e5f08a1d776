[package]
name = "ci_dashboard"
version = "0.1.0"
edition = "2021"
publish = false

[dependencies]
cfg-if = "1"
futures = "0.3"
serde = { version = "1", features = ["derive"] }
wasm-bindgen = { version = "0.2", features = ["serde-serialize"] }
wasm-bindgen-futures = "0.4"
web-sys = { version = "0.3", features = ["Document", "Element", "Headers", "Location", "Node", "Request", "RequestInit", "RequestMode", "Response", "Window", "console"] }
wee_alloc = "0.4"
