[package]
name = "tw_quote"
version = "0.1.0"
edition = "2021"
publish = false

[dependencies]
bus = "2"
chrono = "0.4"
crossbeam-channel = "0.5"
env_logger = "*"
filebuffer = "*"
lazy_static = "1"
libc = "0.2"
log = "0.4"
paho-mqtt = "*"
rayon = "1"
redis = "*"
serde = { version = "1", features = ["derive"] }
serde_json = "1"
socket2 = "0.3"
