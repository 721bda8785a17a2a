[package]
name = "updater_core"
version = "0.1.0"
edition = "2021"
publish = false

[dependencies]
anyhow = "*"
flate2 = "*"
shell-words = "*"
tar = "*"
zip = "*"
zstd = "*"
