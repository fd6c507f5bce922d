[package]
name = "envtools"
version = "0.1.0"
edition = "2021"
publish = false

[dependencies]
anyhow = "1"
clap = { version = "4", features = ["derive"] }
dunce = "1"
winapi = { version = "0.3", features = ["winuser"] }
winreg = "*"
