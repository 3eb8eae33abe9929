[package]
name = "borsh_serde_adapter"
version = "0.1.0"
edition = "2021"
publish = false

[dependencies]
anyhow = "1"
borsh = { version = "1", features = ["unstable__schema"] }
log = "0.4"
serde_json = "1"
thiserror = "1"
