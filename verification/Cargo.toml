[package]
name = "cashew"
version = "0.1.0"
edition = "2021"
publish = false

[dependencies]
aes-gcm = "=0.10.3"
async-trait = "=0.1.92"
base64 = "=0.22.1"
cid = "=0.11.3"
multihash = "=0.19.5"
multihash-codetable = { version = "=0.2.2", features = ["sha2"] }
rand = "=0.8.5"
serde = { version = "=1.0.229", features = ["derive"] }
serde_json = "=1.0.154"
sha2 = "=0.10.9"
thiserror = "=1.0.69"
