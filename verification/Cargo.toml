[package]
name = "caleb"
version = "0.1.0"
edition = "2021"
publish = false

[dependencies]
jiff = "0.2"
ratatui = "0.29"
crossterm = "0.28"
clap = { version = "4", features = ["derive"] }
anyhow = "1"
thiserror = "2"

[dev-dependencies]
tempfile = "3"
