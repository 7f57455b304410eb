[package]
name = "drive_sweep"
version = "0.1.0"
edition = "2021"
publish = false

[dependencies]
google-drive3 = "5"
tokio = { version = "1", features = ["macros", "rt-multi-thread"] }
async-recursion = "1"
base64 = "0.21"
