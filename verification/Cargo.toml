[package]
name = "split_tracker"
version = "0.1.0"
edition = "2021"
publish = false

[dependencies]
anyhow = "*"
chrono = { version = "*", features = ["serde"] }
colored = "*"
serde = { version = "*", features = ["derive"] }
serde_json = "*"
tempfile = "*"
unicode-segmentation = "*"
unicode-width = "*"
uuid = { version = "*", features = ["v4", "serde"] }
