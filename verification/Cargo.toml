[package]
name = "task_maker"
version = "0.1.0"
edition = "2021"
publish = false

[dependencies]
rust-crypto = "=0.2.36"
scrypt = "=0.2.0"
blake3 = "=1.8.7"
shell-words = "=1.1.1"
wildmatch = "=2.7.0"
unic = "=0.9.0"
regex = "=1.13.1"
serde = { version = "=1.0.229", features = ["derive"] }
serde_json = "=1.0.154"
bincode = "=1.3.3"
toml = { version = "=0.8.23", features = ["preserve_order"] }
serde_yaml = "=0.9.34"
