[package]
name = "karstd"
version = "0.1.0"
edition = "2021"
publish = false

[dependencies]
base64ct = { version = "=1.8.3", features = ["alloc"] }
getrandom = "=0.4.3"
ml-dsa = "=0.1.2"
ml-kem = "*"
rustix = { version = "=1.1.6", features = ["fs"] }
serde = { version = "=1.0.229", features = ["derive"] }
serde_json = "=1.0.154"
sha2 = "=0.11.1"
thiserror = "=2.0.21"
tokio = { version = "=1.54.1", features = ["rt", "time", "net"] }
toml = "=1.1.8"
tracing = "=0.1.44"
x25519-dalek = { version = "*", features = ["static_secrets"] }
zeroize = "=1.9.1"
