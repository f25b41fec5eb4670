[package]
name = "req"
version = "0.1.0"
edition = "2021"
publish = false

[dependencies]
regex = "=1.13.1"
anyhow = "*"
clap = { version = "*", features = ["derive"] }
clap_complete_command = "=0.6.1"
crossterm = "*"
indexmap = { version = "=2.14.2", features = ["serde"] }
markdown = "=1.0.0"
ratatui = "=0.30.2"
rsn = "=0.2.0"
schemars = { version = "=1.2.2", features = ["indexmap2"] }
serde = { version = "*", features = ["derive"] }
serde_json = "*"
serde_yaml = "*"
toml = "*"
