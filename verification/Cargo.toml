[package]
name = "stroke_contrast"
version = "0.1.0"
edition = "2021"
publish = false

[dependencies]
kurbo = "0.11"
ordered-float = "*"
log = "*"
env_logger = "*"
clap = { version = "*", features = ["derive"] }
skrifa = "*"
read-fonts = "*"
fontdrasil = "*"
regex = "*"
gf-metadata = "*"
