[package]
name = "mouse_replay"
version = "0.1.0"
edition = "2021"
publish = false

[dependencies]
rdev = "*"

[dev-dependencies]
serde_json = "*"
