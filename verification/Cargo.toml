[package]
name = "twt"
version = "0.1.0"
edition = "2021"
publish = false

[dependencies]
chrono = "0.4"
regex = "1"
serde = { version = "1", features = ["derive"] }
dirs = "*"
config-file = "*"
xcb = { version = "1", features = ["screensaver"] }
