[package]
name = "yeth"
version = "0.1.0"
edition = "2021"
publish = false

[dependencies]
sha2 = "=0.10.9"
clap = { version = "=4.6.7", features = ["derive"] }
serde = { version = "=1.0.229", features = ["derive"] }
toml = "=1.1.7"
walkdir = "=2.5.0"
anyhow = "=1.0.104"
thiserror = "=2.0.21"
