[package]
name = "nodegraph_core"
version = "0.1.0"
edition = "2021"
publish = false

[dependencies]
serde = { version = "1", features = ["derive"] }
serde_json = "1"
dominator = "*"
dwind = "*"
dwind-macros = "*"
futures-signals = "*"
futures-signals-component-macro = "*"
wasm-bindgen = "*"
wasm-bindgen-futures = "*"
js-sys = "*"
web-sys = { version = "*", features = ["Element", "HtmlElement", "HtmlInputElement", "MouseEvent", "Window", "Document", "WheelEvent", "KeyboardEvent", "DomRect"] }
console_error_panic_hook = "*"
