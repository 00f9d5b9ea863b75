[package]
name = "listeria"
version = "0.1.0"
edition = "2021"
publish = false

[dependencies]
wikibase = "*"
pickledb = "*"
tempfile = "*"
urlencoding = "*"
serde_json = "*"
tokio = { version = "*", features = ["full"] }
config = "*"
