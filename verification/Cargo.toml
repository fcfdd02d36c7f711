[package]
name = "herdr_scm"
version = "0.2.0"
edition = "2021"
publish = false

[dependencies]
ratatui = "*"
crossterm = "*"
ansi-to-tui = "*"
ignore = "*"
serde = { version = "1", features = ["derive"] }
serde_json = "1"
toml = "*"
