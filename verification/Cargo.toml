[package]
name = "webgl_gui"
version = "0.1.0"
edition = "2021"
publish = false

[dependencies]
uid = "*"
cgmath = "*"
fnv = "*"
futures = "*"
js-sys = "*"
log = "*"
wasm-bindgen = "*"
wasm-bindgen-futures = "*"
wasm-stopwatch = "*"
web-sys = { version = "*", features = ["Window", "Document", "Element", "EventTarget", "HtmlElement", "HtmlImageElement", "KeyboardEvent", "MouseEvent", "WheelEvent", "Request", "RequestInit", "RequestMode", "Response", "WebGlProgram"] }
