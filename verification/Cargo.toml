[package]
name = "bittorrent"
version = "0.1.0"
edition = "2021"
publish = false

[dependencies]
hex = "0.4"
reqwest = { version = "0.11", features = ["blocking"] }
serde_json = "1"
sha1 = "0.10"
urlencoding = "2"

[dev-dependencies]
serde_bencode = "0.2"
