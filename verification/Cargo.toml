[package]
name = "bite"
version = "0.1.0"
edition = "2021"
publish = false

[dependencies]
serde_json = "1"
bincode = "1"
polling = "3"
log = "0.4"
pretty_env_logger = "0.5"
crossbeam-channel = "0.5"
mio = { version = "0.8", features = ["os-poll", "net"] }
chrono = "0.4"
env_logger = "0.10"
tungstenite = { version = "0.13", default-features = false }
url = "2"
