[package]
name = "file_encryptr"
version = "0.1.0"
edition = "2021"
publish = false

[dependencies]
blake3 = "1"
chacha20poly1305 = "0.10"
hex = "0.4"
rand = "0.8"
clap = { version = "4", features = ["derive"] }
rayon = "1"
rpassword = "7"
