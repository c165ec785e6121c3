[package]
name = "cratetorrent"
version = "0.1.0"
edition = "2021"
publish = false

[dependencies]
sha1 = "=0.11.0"
serde = { version = "=1.0.229", features = ["derive"] }
serde_bytes = "=0.11.19"
serde_bencode = "=0.2.4"
tokio = { version = "=1.53.2", features = ["rt", "net", "sync", "macros", "io-util", "time"] }
tokio-util = { version = "=0.7.19", features = ["codec"] }
futures = "=0.3.34"
nix = { version = "=0.31.3", features = ["uio"] }

[dev-dependencies]
