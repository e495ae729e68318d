[package]
name = "leaky"
version = "0.1.0"
edition = "2021"
publish = false

[dependencies]
libipld = { version = "=0.12.0", default-features = false, features = ["dag-cbor"] }
# libipld takes its hashes from multihash; it is named here only to switch
# on BLAKE3, which libipld leaves off.
multihash = { version = "=0.14.0", default-features = false, features = ["std", "multihash-impl", "blake3", "sha2", "sha3"] }
time = "=0.3.55"
serde = { version = "=1.0.229", features = ["derive"] }
serde_json = "=1.0.154"
clap = { version = "=4.6.7", features = ["derive"] }
tokio = { version = "=1.54.1", features = ["rt-multi-thread", "macros"] }
ipfs-api-backend-hyper = "=0.3.0"
futures-util = "=0.3.34"
http = "=0.2.12"
url = { version = "=2.5.8", features = ["serde"] }
thiserror = "=1.0.69"
anyhow = "=1.0.104"
axum = "=0.6.20"
sqlx = { version = "=0.7.4", default-features = false, features = ["sqlite", "runtime-tokio"] }
reqwest = { version = "=0.11.27", default-features = false, features = ["json"] }
fs-tree = "=0.5.6"
pulldown-cmark = { version = "=0.13.5", default-features = false, features = ["html"] }
regex = "=1.13.1"
image = { version = "=0.25.10", default-features = false, features = ["png", "jpeg"] }
