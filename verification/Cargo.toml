[package]
name = "ipscan"
version = "0.1.0"
edition = "2021"
publish = false

[dependencies]
anyhow = "1"
clap = { version = "4", features = ["derive"] }
crossterm = "0.28"
ipnet = "2"
libc = "0.2"
pnet = "0.35"
ratatui = "0.29"
serde = { version = "1", features = ["derive"] }
serde_json = "1"
