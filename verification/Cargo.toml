[package]
name = "pcpvpn"
version = "0.1.0"
edition = "2021"
publish = false

[dependencies]
base64 = "=0.22.1"
crc32fast = "=1.5.4"
rand = "=0.8.8"
reed-solomon-erasure = "=6.0.0"
serde = { version = "=1.0.229", features = ["derive"] }
serde_json = "=1.0.154"
sha2 = "=0.10.9"
snow = "=0.9.6"
zeroize = "=1.9.1"
thiserror = "=1.0.69"
tokio = { version = "=1.54.1", default-features = false, features = ["net", "io-util", "rt", "sync", "time", "macros"] }
tokio-tungstenite = "*"
futures-util = { version = "0.3", features = ["sink"] }
socket2 = "0.5"
