[package]
name = "gpwgen"
version = "0.1.0"
edition = "2021"
publish = false

[dependencies]
anyhow = "*"
byteorder = "*"
clap = { version = "*", features = ["derive"] }
geo = "*"
h3o = { version = "*", features = ["geo"] }
hextree = "*"
indicatif = "*"
rayon = "*"
