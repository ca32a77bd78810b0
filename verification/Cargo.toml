[package]
name = "prosmotr-core"
version = "0.1.0"
edition = "2021"
publish = false

[dependencies]
calamine = "=0.26.1"
csv = "=1.4.0"
encoding_rs = "=0.8.44"
pulldown-cmark = "=0.12.2"
quick-xml = "=0.37.5"
serde = { version = "=1.0.229", features = ["derive"] }
serde_json = "=1.0.154"
serde_yaml = "=0.9.34"
toml = "=0.8.23"
walkdir = "=2.5.0"
zip = { version = ">=2.0, <2.6", default-features = false, features = ["deflate"] }
tauri = { version = "=2.12.5", default-features = false }
