[package]
name = "noesis_bridge"
version = "0.1.0"
edition = "2021"
publish = false

[dependencies]
bevy = { version = "0.18.1", default-features = false, features = ["bevy_log"] }
notify = "=8.2.1"
