[package]
name = "whvp"
version = "0.1.0"
edition = "2021"
publish = false

[dependencies]
serde = { version = "=1.0.229", features = ["derive"] }
serde_json = "=1.0.151"
notify = "=8.2.0"
ctrlc = "=3.5.2"
