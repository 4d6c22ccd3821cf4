[package]
name = "files_ui"
version = "0.1.0"
edition = "2021"
publish = false

[dependencies]
nucleo-matcher = "0.3"
pulldown-cmark = { version = "0.13", default-features = false }
serde = { version = "1", features = ["derive"] }
serde_json = "1"
