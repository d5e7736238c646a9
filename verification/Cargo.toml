[package]
name = "sr"
version = "0.1.0"
edition = "2021"
publish = false

[dependencies]
crossterm = "*"
glob = "*"
log = "*"
ratatui = "*"
simplelog = "*"
strum = { version = "*", features = ["derive"] }
tui-input = "*"
