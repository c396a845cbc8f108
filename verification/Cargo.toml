[package]
name = "fieldwire"
version = "0.1.0"
edition = "2021"
publish = false

[dependencies]
rand = "=0.10.3"
serde = { version = "=1.0.229", features = ["derive"] }
bincode = "=1.3.3"
rustc-serialize = "=0.3.25"
cbor = "=0.4.1"
rmp-serialize = "=0.8.1"
