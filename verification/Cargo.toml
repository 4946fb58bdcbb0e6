[package]
name = "codecs"
version = "0.1.0"
edition = "2021"
publish = false

[dependencies]
bincode = "1"
clap = { version = "4", features = ["derive"] }
comfy-table = "7"
image = { version = "0.24", default-features = false, features = ["png"] }
rand = "0.8"
serde = { version = "1", features = ["derive"] }
