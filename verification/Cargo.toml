[package]
name = "json_diff"
version = "0.1.0"
edition = "2021"
publish = false

[dependencies]
regex = "*"
chrono = "*"
serde_json = "*"
serde = { version = "*", features = ["derive"] }
toml = "*"
clap = { version = "*", features = ["derive"] }
anyhow = "*"
thiserror = "*"
crossterm = "*"
ratatui = "*"
