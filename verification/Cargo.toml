[package]
name = "bfirs"
version = "0.1.0"
edition = "2021"
publish = false

[dependencies]
anyhow = "1"
argh = "*"
strum = "*"
strum_macros = "*"
thiserror = "1"

[dev-dependencies]
rand = "0.8"
