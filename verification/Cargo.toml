[package]
name = "netcom"
version = "0.1.0"
edition = "2021"
publish = false

[dependencies]
ed25519-dalek = "2.2.0"
rand = "0.8.5"
libc = "0.2"
