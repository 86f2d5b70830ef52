[package]
name = "util_lib"
version = "0.1.0"
edition = "2021"
publish = false

[dependencies]
base64 = "*"
brotli = "*"
chrono = "0.4"
flate2 = "*"
md5 = "*"
rand = "0.8"
regex = "*"
serde = { version = "*", features = ["derive"] }
serde_json = "*"
substring = "*"
totp-rs = "*"
uuid = { version = "*", features = ["v7"] }
warp = "*"
