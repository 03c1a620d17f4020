[package]
name = "nettools"
version = "0.1.0"
edition = "2021"
publish = false

[dependencies]
base64 = "0.22"
flate2 = "1"
httparse = "1"
tokio = { version = "1", features = ["full"] }
clap = { version = "4", features = ["derive"] }
socket2 = { version = "*", features = ["all"] }
libc = "0.2"
fastrand = "2"
