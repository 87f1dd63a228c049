[package]
name = "viper"
version = "0.1.0"
edition = "2021"
publish = false

[dependencies]
anyhow = "1"
cpal = "0.15"
crossterm = "0.28"
image = { version = "0.25", default-features = false, features = ["png"] }
ratatui = "0.29"
