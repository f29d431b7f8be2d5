[package]
name = "taino_edit_core"
version = "0.3.0"
edition = "2021"
publish = false

[dependencies]
regex = "1"
pulldown-cmark = { version = "0.13", default-features = false }
serde_json = "1"
