[package]
name = "simple_crypto_lab"
version = "0.1.0"
edition = "2021"
publish = false

[dependencies]
blake3 = "=1.8.7"
bytemuck = "=1.25.2"
postcard = { version = "=1.1.3", features = ["alloc"] }
rand = "=0.8.8"
rayon = "1"
serde = { version = "=1.0.229", features = ["derive"] }
subtle = "=2.6.1"
