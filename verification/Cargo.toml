[package]
name = "arcadeum"
version = "0.1.0"
edition = "2021"
publish = false

[dependencies]
libsecp256k1 = "=0.3.5"
tiny-keccak = "=1.5.0"
rand = "=0.7.3"
rand_xorshift = { version = "=0.2.0", features = ["serde1"] }
serde = "=1.0.229"
serde_cbor = "=0.11.2"
