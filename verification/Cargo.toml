[package]
name = "daboss"
version = "0.1.0"
edition = "2021"
publish = false

[dependencies]
arboard = { version = "3", default-features = false }
boa_engine = "0.20"
flate2 = "1"
image = { version = "0.25", default-features = false, features = ["png", "jpeg", "gif", "webp", "bmp"] }
png = "0.17"
ring = "0.17"
tiny-skia = "0.11"
url = "2"
