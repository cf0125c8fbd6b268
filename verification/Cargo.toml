[package]
name = "emerald"
version = "0.1.0"
edition = "2021"
publish = false

[dependencies]
cpal = "0.15"
macroquad = "0.4"
png = "0.17"
serde_json = "1"
