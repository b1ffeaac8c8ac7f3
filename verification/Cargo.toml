[package]
name = "drawpad"
version = "0.1.0"
edition = "2021"
publish = false

[dependencies]
bincode = "1.3"
futures = "0.3"
gloo-net = "0.2"
gloo-timers = "0.2"
serde = { version = "1", features = ["derive"] }
wasm-bindgen = "0.2"
wasm-bindgen-futures = "0.4"
web-sys = { version = "0.3", features = ["CanvasRenderingContext2d", "HtmlCanvasElement", "HtmlElement", "HtmlInputElement", "ImageData", "InputEvent", "KeyboardEvent", "Location", "MouseEvent", "PointerEvent", "UrlSearchParams", "Window", "console"] }
yew = "0.19"
yew-agent = "0.1"
