[package]
name = "puck"
version = "0.1.0"
edition = "2021"
publish = false

[dependencies]
multimap = { version = "=0.10.1", default-features = false }
alto = "2"
bincode = "0.9"
bytes = "0.4"
cgmath = "0.16"
fnv = "1"
futures = "0.1"
image = "0.18"
lewton = "0.9"
notify = "4"
rand = "0.4"
serde = { version = "1", features = ["derive"] }
serde_json = "1"
time = "0.1"
tokio-core = "0.1"
tokio-io = "0.1"
