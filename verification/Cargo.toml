[package]
name = "whohere"
version = "0.1.0"
edition = "2021"
publish = false

[dependencies]
serde = { version = "1", features = ["derive"] }
serde_json = "1"
libc = "0.2"
socket2 = { version = "0.5", features = ["all"] }
