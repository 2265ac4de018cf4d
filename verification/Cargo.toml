[package]
name = "cw_plus"
version = "0.1.0"
edition = "2021"
publish = false

[dependencies]
cosmwasm-std = "1"
cw0 = "0.10"
cosmwasm-storage = "1"
anyhow = "1"
thiserror = "1"
serde = { version = "1", features = ["derive"] }
schemars = "0.8"
