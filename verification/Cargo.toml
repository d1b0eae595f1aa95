[package]
name = "helix_vcs"
version = "0.1.0"
edition = "2021"
publish = false

[dependencies]
memchr = "2"
anyhow = "1"
arc-swap = "1"
