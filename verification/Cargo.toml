[package]
name = "dioxus-fsrouter"
version = "0.1.0"
edition = "2021"
publish = false

[dependencies]
urlencoding = "2"
indexmap = "2"
thiserror = "2"
inventory = "0.3"
dioxus = "*"
web-sys = { version = "0.3", features = ["Window", "History", "Location", "PopStateEvent", "Event", "EventTarget"] }
wasm-bindgen = "0.2"
syn = { version = "2", features = ["full"] }
quote = "1"
proc-macro2 = "1"
