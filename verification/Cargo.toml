[package]
name = "cream"
version = "0.1.0"
edition = "2021"
publish = false

[dependencies]
regex = "=1.13.1"
ratatui = "=0.30.2"
crossterm = "=0.29.0"
color-eyre = "=0.6.5"

[dev-dependencies]
tempfile = "3"
