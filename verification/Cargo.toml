[package]
name = "simumech"
version = "0.1.0"
edition = "2021"
publish = false

[dependencies]
rand = "0.8"
rand_isaac = "0.3"
regex = "1"
regex-syntax = "0.8"
serde = { version = "1", features = ["derive"] }
serde_json = "1"
lazy_static = "1"
chrono = "0.4"
astro = "2"
meval = "0.2"
linked-hash-map = "0.5"
distance = "0.4"
retry = "*"
discord = "0.8"
egg-mode = "*"
tokio-core = "0.1"
base64 = "*"
hyper = "*"
