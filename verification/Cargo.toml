[package]
name = "magic_mount"
version = "0.1.0"
edition = "2021"
publish = false

[dependencies]
anyhow = "*"
extattr = "*"
log = "*"
rustix = { version = "*", features = ["fs", "mount"] }
