[package]
name = "wafflematrix"
version = "0.1.0"
edition = "2021"
publish = false

[dependencies]
similar = "2"
lru = "*"
serde = { version = "1", features = ["derive"] }
serde_json = "1"
rust_xlsxwriter = "*"
image = { version = "*", default-features = false, features = ["png"] }
rustfft = "6"
pdfium-render = "*"
base64 = "0.22"
clap = { version = "4", features = ["derive"] }
parking_lot = "0.12"
