[package]
name = "moq_relay"
version = "0.1.0"
edition = "2021"
publish = false

[dependencies]
anyhow = "=1.0.104"
async-trait = "=0.1.92"
base64 = "=0.22.1"
blind-rsa-signatures = "=0.17.0"
bytes = "=1.12.1"
cat-token = "=0.2.0"
chrono = "=0.4.45"
ciborium = "=0.2.2"
clap = { version = "=4.6.7", features = ["derive"] }
futures = "=0.3.34"
parking_lot = "=0.12.5"
rand = "=0.8.8"
reqwest = { version = "=0.12.28", default-features = false, features = ["json"] }
rsa = "=0.9.10"
rustc-hash = "=2.1.3"
serde = { version = "=1.0.229", features = ["derive"] }
serde_json = "=1.0.154"
sha2 = "=0.10.9"
slab = "=0.4.12"
smallvec = "=1.16.4"
spki = "=0.7.3"
tls_codec = "=0.4.2"
tokio = { version = "=1.54.1", features = ["full"] }
tracing = "=0.1.44"
url = "=2.5.8"
uuid = { version = "=1.29.0", features = ["v4"] }

[dev-dependencies]
p256 = { version = "=0.13.2", features = ["pem"] }
