[package]
name = "cubicle"
version = "0.1.0"
edition = "2021"
publish = false

[dependencies]
bytes = "1"
crc32fast = "1"
im = "15"
tokio = { version = "1", features = ["full"] }
