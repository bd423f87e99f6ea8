[package]
name = "schema_tui"
version = "0.1.0"
edition = "2021"
publish = false

[dependencies]
crossterm = "0.28"
ratatui = "0.29"
schemars = "1"
serde = { version = "1", features = ["derive"] }
serde_json = "1"
