[package]
name = "wnfs"
version = "0.1.0"
edition = "2021"
publish = false

[dependencies]
aes-gcm = "=0.10.3"
anyhow = "=1.0.104"
chrono = "=0.4.45"
libipld = { version = "=0.12.0", default-features = false, features = ["dag-cbor"] }
multihash = { version = "=0.14.0", features = ["sha2", "multihash-impl"] }
rand_core = "=0.6.4"
semver = "=1.0.28"
serde = { version = "=1.0.229", features = ["derive", "rc"] }
sha3 = "=0.10.0"
skip_ratchet = "=0.1.6"

[dev-dependencies]
proptest = { version = "=1.4.0", default-features = false, features = ["std"] }
