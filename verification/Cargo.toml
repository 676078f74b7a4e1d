[package]
name = "dashboard_layout"
version = "0.1.0"
edition = "2021"
publish = false

[dependencies]
chrono = "0.4"
flate2 = "1"
resvg = "0.35"
serde = { version = "1", features = ["derive"] }
serde_json = "1"
skia-safe = "*"
