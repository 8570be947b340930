[package]
name = "teaplot"
version = "0.1.0"
edition = "2021"
publish = false

[dependencies]
clap = { version = "4", features = ["derive"] }
i_overlay = "*"
i_triangle = "*"
imgui = "*"
itertools = "*"
nalgebra = "*"
ordered-float = "*"
raylib = "*"
rfd = "*"
serde = { version = "1", features = ["derive"] }
serde_json = "1"
uuid = { version = "1", features = ["v7"] }
wasm-bindgen = "0.2"
web-sys = { version = "0.3", features = ["CanvasRenderingContext2d", "HtmlCanvasElement", "Window", "Document", "Element", "HtmlElement", "Node", "console"] }
