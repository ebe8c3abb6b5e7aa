[package]
name = "firestorm"
version = "0.1.0"
edition = "2021"
publish = false

[dependencies]
amd64_timer = "*"
inferno = { version = "*", default-features = false }
