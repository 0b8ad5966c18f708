[package]
name = "volctl"
version = "0.1.0"
edition = "2021"
publish = false

[dependencies]
objc2-core-audio = { version = "=0.3.2", default-features = false, features = ["std", "AudioHardware"] }
