[package]
name = "edgepack"
version = "0.1.0"
edition = "2021"
publish = false

[dependencies]
aes = "0.8"
base64 = "0.22"
cbc = { version = "0.1", features = ["alloc"] }
quick-xml = "0.37"
serde = { version = "1", features = ["derive"] }
