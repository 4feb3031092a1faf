[package]
name = "poorerpoint"
version = "0.1.0"
edition = "2021"
publish = false

[dependencies]
pulldown-cmark = { version = "*", default-features = false }
ratatui = "*"
crossterm = "*"
