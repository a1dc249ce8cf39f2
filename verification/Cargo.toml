[package]
name = "oxideav-mp4"
version = "0.1.0"
edition = "2021"

[dependencies]
oxideav-core = "*"
