[package]
name = "kite_gcs"
version = "0.1.0"
edition = "2021"
publish = false

[dependencies]
mavlink = { version = "*", features = ["ardupilotmega"] }
serde = { version = "1", features = ["derive"] }
serde_json = "1"
reqwest = { version = "*", default-features = false }
