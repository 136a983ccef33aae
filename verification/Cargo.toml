[package]
name = "light_rpc"
version = "0.1.0"
edition = "2021"
publish = false

[dependencies]
solana-sdk = "=1.14.29"
solana-version = "=1.14.29"
bincode = "=1.3.3"
serde_json = "=1.0.154"
anyhow = "=1.0.104"
log = "=0.4.35"
bytes = "=1.12.1"
tokio = { version = "=1.54.1", features = ["full"] }
reqwest = "=0.11.27"
actix-web = "=4.18.1"
simplelog = "=0.12.2"
