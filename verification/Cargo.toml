[package]
name = "earshot"
version = "0.1.0"
edition = "2021"
publish = false

[dependencies]
base64 = "0.22"
const-hex = "1"
futures-util = "0.3"
rustls = "0.23"
rustls-pki-types = "1"
secp256k1 = { version = "0.31", features = ["recovery", "global-context"] }
serde = { version = "1", features = ["derive"] }
serde_json = "1"
thiserror = "2"
tiny-keccak = { version = "2", features = ["keccak"] }
tokio = { version = "1", features = ["macros", "net", "rt-multi-thread", "sync", "time"] }
tokio-rustls = "0.26"
tokio-tungstenite = "*"
tracing = "0.1"
webpki-roots = "1"
