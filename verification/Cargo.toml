[package]
name = "altc_gui"
version = "0.1.0"
edition = "2021"
publish = false

[dependencies]
quick-xml = { version = "*", features = ["serialize"] }
yew = { version = "*", features = ["csr"] }
js-sys = "*"
wasm-bindgen = "*"
wasm-bindgen-futures = "*"
web-sys = { version = "*", features = ["File", "FileList", "Blob", "Url", "DataTransfer", "DragEvent", "Event", "EventTarget", "HtmlAnchorElement", "HtmlInputElement", "HtmlSelectElement", "HtmlTextAreaElement"] }
