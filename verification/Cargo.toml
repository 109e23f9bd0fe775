[package]
name = "sdal"
version = "0.1.0"
edition = "2021"
publish = false

[dependencies]
fastcdc = "3"
sha2 = "0.10"
hex = "0.4"
ed25519-dalek = { version = "2", features = ["rand_core"] }
rand = "0.8"
serde = { version = "1", features = ["derive"] }
serde_json = "1"
anyhow = "1"
thiserror = "1"
base64 = "0.22"
clap = { version = "4", features = ["derive"] }
reqwest = { version = "0.12", default-features = false, features = ["blocking"] }
ratatui = "0.29"
crossterm = "0.28"
color-eyre = "0.6"
