[package]
name = "dioxus_head"
version = "0.1.0"
edition = "2021"
publish = false

[dependencies]
dioxus = { version = "0.5", default-features = false, features = ["hooks"] }
tracing = "0.1"
web-sys = { version = "0.3", features = ["Document", "Element", "HtmlCollection", "HtmlHeadElement", "Node", "Window"] }
