[package]
name = "doctor_diff"
version = "0.1.0"
edition = "2021"
publish = false

[dependencies]
ring = "0.17"
zip = { version = "0.6", default-features = false }
serde = { version = "1", features = ["derive"] }
serde_json = "1"
clap = "2.34"
