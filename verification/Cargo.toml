[package]
name = "tierstore"
version = "0.1.0"
edition = "2021"
publish = false

[dependencies]
bytes = "1"
memmap2 = "0.9"
moka = { version = "0.12", features = ["future"] }
tokio = { version = "1", features = ["rt", "sync"] }
