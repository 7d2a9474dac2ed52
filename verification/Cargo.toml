[package]
name = "mdx"
version = "0.1.0"
edition = "2021"
publish = false

[dependencies]
flate2 = "1"
minilzo-rs = "*"
ripemd = "0.1"
salsa20 = "0.10"
rusqlite = { version = "*", features = ["bundled"] }
tracing = "0.1"
