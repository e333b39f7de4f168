[package]
name = "ocelli"
version = "0.1.0"
edition = "2021"
publish = false

[dependencies]
chrono = "*"
image = "*"
v4l = "*"
