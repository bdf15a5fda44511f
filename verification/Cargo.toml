[package]
name = "pcap_analyze"
version = "0.1.0"
edition = "2021"
publish = false

[dependencies]
wasm-bindgen = "*"
js-sys = "*"
serde = { version = "1", features = ["derive"] }
serde-wasm-bindgen = "*"
console_error_panic_hook = "*"
bytemuck = { version = "1", features = ["derive"] }
web-sys = { version = "*", features = ["Window", "Document", "Element", "HtmlCanvasElement"] }
wgpu = { version = "*", default-features = false, features = ["webgpu", "wgsl"] }
