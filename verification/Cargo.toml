[package]
name = "amethyst_assets"
version = "0.1.0"
edition = "2021"
publish = false

[dependencies]
bincode = "1"
bytes = "1"
crossbeam = "0.8"
crossbeam-channel = "0.5"
log = "0.4"
serde = { version = "1", features = ["derive"] }
uuid = { version = "1", features = ["v4"] }
wavefront_obj = "*"
