[package]
name = "words"
version = "0.1.0"
edition = "2021"
publish = false

[dependencies]
rand = "0.9"
serde = { version = "1", features = ["derive"] }
serde_json = "1"
anyhow = "1"
relm4 = { version = "0.9", features = ["libadwaita"] }
gettext-rs = "0.7"
tr = "0.1"
reqwest = { version = "0.12", default-features = false, features = ["blocking", "rustls-tls"] }
