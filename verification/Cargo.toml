[package]
name = "timestore"
version = "0.1.0"
edition = "2021"
publish = false

[dependencies]
anyhow = "*"
caos = "*"
futures = "*"
glommio = "*"
