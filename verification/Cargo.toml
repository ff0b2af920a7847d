[package]
name = "minibtc"
version = "0.1.0"
edition = "2021"
publish = false

[dependencies]
sha256 = "1"
ripemd = "0.1"
ecdsa = { version = "0.16", features = ["signing", "verifying"] }
p256 = "0.13"
base58 = "0.2"
rand_core = { version = "0.6", features = ["std"] }
sled = "0.34"
serde = { version = "1", features = ["derive"] }
serde_json = "1"
clap = { version = "4", features = ["derive"] }
anyhow = "1"

[dev-dependencies]
hex = "0.4"
