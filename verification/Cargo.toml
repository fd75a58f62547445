[package]
name = "axdot"
version = "0.1.0"
edition = "2021"
publish = false

[dependencies]
clap = "*"
copy_dir = "*"
serde = { version = "1", features = ["derive"] }
serde_json = "1"
serde_yaml = "*"
toml = "*"
