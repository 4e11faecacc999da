[package]
name = "imap_rs"
version = "0.2.0"
edition = "2021"
publish = false

[dependencies]
base64 = "0.22"
bytes = "1"
rustls-pki-types = "1"
thiserror = "2"
tokio = { version = "1", features = ["rt-multi-thread", "macros", "net", "io-util", "sync", "time"] }
tokio-rustls = { version = "0.26", default-features = false, features = ["ring", "tls12", "logging"] }
webpki-roots = "*"
zeroize = { version = "1", features = ["derive"] }
