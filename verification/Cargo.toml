[package]
name = "cantine"
version = "0.1.0"
edition = "2021"
publish = false

[dependencies]
bincode = "=1.3.3"
byteorder = "=1.5.0"
crossbeam-channel = "=0.5.17"
serde = { version = "=1.0.229", features = ["derive"] }
serde_json = "=1.0.154"
structopt = "=0.3.26"
tantivy = "=0.22.1"
uuid = { version = "=1.29.0", features = ["serde", "v4"] }
