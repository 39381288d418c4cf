[package]
name = "evoting"
version = "0.1.0"
edition = "2021"
publish = false

[dependencies]
dlog-group = "=0.1.0"
dlog-sigma-primitives = "=0.1.0"
merlin = "=3.0.0"
rand = "=0.8.8"
rand_core = "=0.6.4"
serde = { version = "=1.0.229", features = ["derive"] }
serde_cbor = "=0.11.2"
serde_json = "=1.0.154"
sha3 = "=0.10.9"
zeroize = { version = "=1.9.1", features = ["derive"] }
