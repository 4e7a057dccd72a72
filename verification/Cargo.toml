[package]
name = "opencord"
version = "0.1.0"
edition = "2021"
publish = false

[dependencies]
bytes = "*"
rmp-serde = "*"
rustls-pemfile = "*"
serde = { version = "*", features = ["derive"] }
tokio = { version = "*", features = ["full"] }
url = "*"
uuid = { version = "*", features = ["v4"] }
web-transport = "*"
