[package]
name = "rust_rim"
version = "0.1.0"
edition = "2021"
publish = false

[dependencies]
scraper = "=0.29.0"
serde_json = "=1.0.154"
serde = { version = "=1.0.229", features = ["derive"] }
anyhow = "=1.0.104"
ureq = "=2.12.1"
flate2 = "=1.1.10"
tar = "=0.4.46"
zip = { version = "=2.6.1", default-features = false, features = ["deflate"] }
tracing = "=0.1.44"
rfd = "=0.15.4"
image = { version = "=0.25.10", default-features = false, features = ["png", "jpeg", "gif"] }
