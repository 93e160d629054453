[package]
name = "braid_crypto"
version = "0.1.0"
edition = "2021"
publish = false

[dependencies]
bincode = "1"
indexmap = "2"
rand = "0.5"
serde = { version = "1", features = ["derive"] }
serde_derive = "1"
