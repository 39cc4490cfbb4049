[package]
name = "prime_agent"
version = "0.1.0"
edition = "2021"
publish = false

[dependencies]
anyhow = "*"
clap = { version = "*", features = ["derive"] }
indicatif = "*"
owo-colors = "*"
serde = { version = "*", features = ["derive"] }
serde_json = "*"
similar = "*"
