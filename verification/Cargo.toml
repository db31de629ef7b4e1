[package]
name = "metricus"
version = "0.1.0"
edition = "2021"
publish = false

[dependencies]
quanta = "*"
serde = { version = "*", features = ["derive"] }
serde_with = "*"
log = "*"
