[package]
name = "rte"
version = "0.1.0"
edition = "2021"
publish = false

[dependencies]
anyhow = "*"
clap = { version = "*", features = ["derive", "env"] }
flate2 = "*"
minijinja = { version = "*", features = ["custom_syntax"] }
reqwest = { version = "*", default-features = false, features = ["blocking", "rustls-tls"] }
serde_json = "*"
serde_yaml = "*"
url = "*"
urlencoding = "*"
walkdir = "*"
