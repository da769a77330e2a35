[package]
name = "geostore"
version = "0.1.0"
edition = "2021"
publish = false

[dependencies]
bincode2 = "2"
cosmwasm-std = "1.5"
cosmwasm-storage = "1.5"
schemars = "0.8"
serde = { version = "1", features = ["derive"] }
