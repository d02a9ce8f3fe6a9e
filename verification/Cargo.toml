[package]
name = "ps3dec"
version = "0.1.0"
edition = "2021"
publish = false

[dependencies]
aes = "0.8"
cbc = "0.1"
hex = "0.4"
clap = { version = "4", features = ["derive"] }
chrono = "0.4"
indicatif = "0.17"
log = "0.4"
log4rs = "1"
rayon = "1"
