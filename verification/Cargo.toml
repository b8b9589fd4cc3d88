[package]
name = "subnet_calc"
version = "0.1.0"
edition = "2021"
publish = false

[dependencies]
chrono = { version = "0.4", features = ["serde"] }
serde = { version = "1", features = ["derive"] }
serde_json = "1"
rfd = { version = "0.14", default-features = false, features = ["xdg-portal", "async-std"] }
