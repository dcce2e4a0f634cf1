[package]
name = "dreki"
version = "0.1.0"
edition = "2021"
publish = false

[dependencies]
glam = "=0.34.2"
serde = { version = "=1.0.229", features = ["derive"] }
serde_json = "=1.0.154"
log = "=0.4.35"
ratatui = "=0.30.2"
crossterm = "=0.29.0"
image = { version = "*", default-features = false, features = ["png", "jpeg"] }
fontdue = "*"
notify = "*"
