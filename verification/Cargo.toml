[package]
name = "vertex_puzzle"
version = "0.1.0"
edition = "2021"
publish = false

[dependencies]
js-sys = "0.3"
nalgebra-glm = "*"
quick-error = "1.2"
quick-xml = "0.22"
structopt = "0.3"
wasm-bindgen = "0.2"
web-sys = { version = "0.3", features = ["Document", "Element", "Event", "EventTarget", "HtmlCanvasElement", "MouseEvent", "Node", "PointerEvent", "WebGlBuffer", "WebGlProgram", "WebGlRenderingContext", "WebGlShader", "WebGlUniformLocation", "Window"] }
