[package]
name = "rtorrent"
version = "0.1.0"
edition = "2021"
publish = false

[dependencies]
sha1 = "0.10"
rand = "0.8"
urlencoding = "2"
tokio = { version = "1", features = ["full"] }
reqwest = { version = "0.12", default-features = false }
async-trait = "0.1"
crossterm = "0.27"
dashmap = "5"
bytes = "1"
