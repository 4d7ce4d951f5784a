[package]
name = "biwac"
version = "0.1.0"
edition = "2021"
publish = false

[dependencies]
regex = "=1.13.1"
serde = { version = "=1.0.229", features = ["derive"] }
serde_json = "=1.0.154"
clap = { version = "=4.6.7", features = ["derive"] }
colored = "=3.1.1"
ariadne = "=0.6.0"
wat = "*"
wasmparser = "*"
