[package]
name = "notears"
version = "0.1.0"
edition = "2021"
publish = false

[dependencies]
ndarray = { version = "=0.15.6", features = ["serde"] }
rand = "=0.8.8"
serde = { version = "=1.0.229", features = ["derive"] }
thiserror = "=1.0.69"
