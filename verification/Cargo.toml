[package]
name = "zoega"
version = "0.1.0"
edition = "2021"
publish = false

[dependencies]
regex = "*"
strsim = "*"
rand = "*"
chrono = "*"
serde = { version = "*", features = ["derive"] }
serde_json = "*"
clap = { version = "*", features = ["derive"] }
