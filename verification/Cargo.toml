[package]
name = "clipboard_manager"
version = "0.1.0"
edition = "2021"
publish = false

[dependencies]
chrono = "*"
image = "*"
arboard = "*"
crossterm = "*"
ratatui = "*"
dirs = "*"
signal-hook = "*"
