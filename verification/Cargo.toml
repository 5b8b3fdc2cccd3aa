[package]
name = "torrent_core"
version = "0.1.0"
edition = "2021"
publish = false

[dependencies]
sha1 = "0.10"
anyhow = "1"
chrono = "0.4"
colored = "2"
reqwest = { version = "0.12", default-features = false, features = ["blocking", "rustls-tls"] }
