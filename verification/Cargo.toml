[package]
name = "rollback_netcode"
version = "0.1.0"
edition = "2021"
publish = false

[dependencies]
bincode = "1"
ggez = "0.5"
ipconfig = "0.2"
rand = "0.7"
serde = { version = "1", features = ["derive"] }
