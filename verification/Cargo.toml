[package]
name = "prospero"
version = "0.1.0"
edition = "2021"
publish = false

[dependencies]
flate2 = "1"
image = { version = "0.25", default-features = false, features = ["jpeg", "png"] }
md5 = "0.7"
rand = { version = "0.9", features = ["small_rng"] }
rapier2d = "0.23"
regex = "1"
serde_json = "1"
sha1 = "0.10"
sha2 = "0.10"
sha3 = "0.10"
