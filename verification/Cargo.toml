[package]
name = "domino"
version = "0.1.0"
edition = "2021"
publish = false

[dependencies]
hmac-sha1 = "*"
sha1 = "*"
hmac = "*"
base64 = "0.13"
chrono = "0.4"
serde = "1"
serde_derive = "1"
actix-web = "4"
actix-rt = "2"
actix-session = { version = "0.10", features = ["cookie-session"] }
awc = "3"
