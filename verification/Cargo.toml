[package]
name = "aside"
version = "0.1.0"
edition = "2021"
publish = false

[dependencies]
anyhow = "1"
chrono = "0.4"
cidre = "*"
clap = { version = "4", features = ["derive"] }
cpal = "0.15"
crossterm = "0.28"
dasp = "0.11"
hound = "3.5"
ratatui = "0.29"
rtrb = "0.3"
serde = { version = "1", features = ["derive"] }
serde_json = "1"
toml = "0.8"
