[package]
name = "lowkey"
version = "0.1.0"
edition = "2021"
publish = false

[dependencies]
chacha20poly1305 = "0.10"
sha2 = "0.10"
png = "0.17"
image = "0.25"
clap = { version = "4", features = ["derive"] }
