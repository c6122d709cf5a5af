[package]
name = "servo_session"
version = "0.1.0"
edition = "2021"
publish = false

[dependencies]
url = "1.7"
uuid = { version = "0.8", features = ["v4"] }
