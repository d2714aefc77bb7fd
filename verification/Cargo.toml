[package]
name = "rooibos"
version = "0.1.0"
edition = "2021"
publish = false

[dependencies]
slotmap = "=1.1.1"
matchit = "=0.9.2"
url = "=2.5.8"
crossterm = "=0.29.0"
terminput = "=0.5.16"
ratatui = { version = "0.29", default-features = false }
