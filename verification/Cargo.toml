[package]
name = "crypt_client"
version = "0.1.0"
edition = "2021"
publish = false

[dependencies]
aes = "=0.7.5"
block-modes = "=0.8.1"
clearscreen = "*"
rand = "=0.8.5"
rpassword = "=5.0.1"
rust-argon2 = "*"
rustyline = "=9.1.2"
