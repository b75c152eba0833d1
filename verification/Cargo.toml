[package]
name = "torrent_client"
version = "0.1.0"
edition = "2021"
publish = false

[dependencies]
sha1 = "*"
rand = "*"
urlencoding = "*"
reqwest = { version = "*", default-features = false, features = ["blocking"] }
