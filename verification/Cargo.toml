[package]
name = "collection_store"
version = "0.1.0"
edition = "2021"
publish = false

[dependencies]
dioxus = { version = "0.7", default-features = false, features = ["macro", "html", "hooks", "signals", "launch"] }
dioxus-core = { version = "0.7" }
dioxus-signals = { version = "0.7" }
dioxus-stores = { version = "0.7" }
