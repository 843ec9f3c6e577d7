[package]
name = "freestati"
version = "0.1.0"
edition = "2021"
publish = false

[dependencies]
polars = { version = "=0.46.0", features = ["lazy", "json", "csv"] }
serde = { version = "=1.0.229", features = ["derive"] }
serde_json = "=1.0.154"
ambers = "=0.4.6"
arrow = { version = "=57.3.2", default-features = false }
