[package]
name = "whoa"
version = "0.1.0"
edition = "2021"
publish = false

[dependencies]
rand = "0.9"
anyhow = "1"
cellophane = "*"
clap = { version = "4", features = ["derive"] }
crossterm = "*"
ctrlc = "*"
dirs = "*"
env_logger = "*"
glam = "*"
indoc = "2"
log = "0.4"
noise = "*"
syntect = { version = "5", default-features = false, features = ["default-fancy"] }
toml = "*"
