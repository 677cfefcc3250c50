[package]
name = "trivium"
version = "0.1.0"
edition = "2021"
publish = false

[dependencies]
anyhow = "*"
chrono = "*"
csv = "*"
parking_lot = "*"
serde = { version = "*", features = ["derive"] }
serde_json = "*"
sled = "*"
thiserror = "*"
uuid = { version = "*", features = ["v4", "serde"] }
