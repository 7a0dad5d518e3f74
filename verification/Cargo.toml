[package]
name = "demo_lab"
version = "0.1.0"
edition = "2021"
publish = false

[dependencies]
rand = { version = "0.8", features = ["small_rng"] }
rand_chacha = "0.3"
wasm-bindgen = "0.2"
js-sys = "0.3"
console_error_panic_hook = "0.1"
web-sys = { version = "0.3", features = ["Window", "Document", "Element", "HtmlElement", "HtmlCanvasElement", "CanvasRenderingContext2d", "HtmlInputElement", "HtmlSelectElement", "HtmlButtonElement", "HtmlAnchorElement", "KeyboardEvent", "MouseEvent", "Event", "EventTarget", "CssStyleDeclaration", "ImageData", "DomRect", "Blob", "Url", "UrlSearchParams", "Location", "Navigator", "Clipboard", "Node", "HtmlBodyElement"] }
