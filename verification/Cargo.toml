[package]
name = "rove"
version = "0.1.0"
edition = "2021"
publish = false

[dependencies]
serde = { version = "=1.0.229", features = ["derive"] }
serde_json = "1"
notify = "=8.2.1"
sysinfo = "=0.40.1"
trash = "=5.2.9"
image = { version = "=0.25.10", default-features = false, features = ["png"] }
