[package]
name = "pictagger"
version = "0.1.0"
edition = "2021"
publish = false

[dependencies]
base64 = "0.22"
zip = { version = "2", default-features = false }
uuid = { version = "1", features = ["v4", "serde"] }
serde = { version = "1", features = ["derive"] }
serde_json = "1"
serde_yaml = "0.9"
leptos = "0.8"
wasm-bindgen = "0.2"
wasm-bindgen-futures = "0.4"
js-sys = "0.3"
web-sys = { version = "0.3", features = ["Window", "Storage", "Document", "Element", "HtmlElement", "HtmlAnchorElement", "HtmlInputElement", "Blob", "BlobPropertyBag", "Url", "ScrollIntoViewOptions", "ScrollBehavior", "FileList", "File", "Event", "EventTarget", "PointerEvent", "MouseEvent"] }
gloo-file = { version = "0.3", features = ["futures"] }
