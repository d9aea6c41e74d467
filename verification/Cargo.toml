[package]
name = "cutready"
version = "0.1.0"
edition = "2021"
publish = false

[dependencies]
gix = { version = "*", default-features = false, features = ["sha1"] }
chrono = { version = "*", features = ["serde"] }
serde = { version = "*", features = ["derive"] }
serde_json = "*"
thiserror = "*"
