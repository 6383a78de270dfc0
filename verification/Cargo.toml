[package]
name = "stanchion"
version = "0.1.0"
edition = "2021"
publish = false

[dependencies]
rand = "0.9"
serde = { version = "1", features = ["derive"] }
serde_json = "1"
thiserror = "2"
ordered-float = "5"

[dev-dependencies]
approx = "0.5"
