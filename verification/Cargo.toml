[package]
name = "minigit"
version = "0.1.0"
edition = "2021"
publish = false

[dependencies]
flate2 = "*"
hex = "*"
sha1 = "*"
clap = { version = "*", features = ["derive"] }
thiserror = "*"
