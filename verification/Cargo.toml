[package]
name = "moq-mux"
version = "0.1.0"
edition = "2021"
publish = false

[dependencies]
anyhow = "=1.0.104"
bytes = "=1.12.1"
ed25519-dalek = "=2.2.0"
hang = "=0.21.19"
kio = "=0.6.3"
moq-binary = "=0.1.18"
moq-json = "=0.5.16"
moq-loc = "=0.2.27"
moq-secure = "=0.1.5"
mp4-atom = "=0.17.0"
thiserror = "=2.0.21"
tracing = "=0.1.44"
url = "=2.5.8"

[dev-dependencies]
serde_json = "=1.0.154"
