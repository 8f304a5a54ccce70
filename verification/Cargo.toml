[package]
name = "botcore"
version = "0.1.0"
edition = "2021"
publish = false

[dependencies]
url = "*"
reqwest = { version = "*", default-features = false }
tempfile = "*"
image = { version = "*", default-features = false }
async-trait = "*"
