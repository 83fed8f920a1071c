[package]
name = "temp_rs"
version = "0.1.0"
edition = "2021"
publish = false

[dependencies]
anyhow = "1"
libc = "0.2"
quote = "1"
rustyline = "*"
syn = { version = "2", features = ["full"] }
tempfile = "3"
