[package]
name = "lifesearch"
version = "0.1.0"
edition = "2021"
publish = false

[dependencies]
byteorder = "1"
bincode = "1"
serde = { version = "1", features = ["derive"] }
serde_json = "1"
crossbeam = "0.7"
memmap = "0.7"
chrono = "0.4"
