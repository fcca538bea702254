[package]
name = "agerus_core"
version = "0.1.0"
edition = "2021"
publish = false

[dependencies]
serde_json = "*"
serde = { version = "*", features = ["derive"] }
tokio = { version = "*", features = ["full"] }
reqwest = { version = "*", default-features = false, features = ["json"] }
futures-util = "*"
anyhow = "*"
chrono = "*"
crossterm = "*"
ratatui = "*"
textwrap = "*"
toml = "*"
dirs = "*"
