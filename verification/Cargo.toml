[package]
name = "encsync"
version = "0.1.0"
edition = "2021"
publish = false

[dependencies]
anyhow = "1"
chacha20poly1305 = { version = "*", features = ["stream"] }
clap = { version = "*", features = ["derive"] }
clap-verbosity-flag = "*"
env_logger = "*"
indicatif = "*"
log = "*"
rand = "0.8"
serde = { version = "1", features = ["derive"] }
toml = "*"
