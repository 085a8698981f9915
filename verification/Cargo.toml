[package]
name = "modulate"
version = "0.1.0"
edition = "2021"
publish = false

[dependencies]
serde = { version = "1", features = ["derive"] }
toml = "*"
semver = { version = "1", features = ["serde"] }
uuid = { version = "1", features = ["serde"] }
thiserror = "*"
log = "0.4"
pretty_env_logger = "*"
