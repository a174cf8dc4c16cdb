[package]
name = "taiko_core"
version = "0.1.0"
edition = "2021"
publish = false

[dependencies]
crossterm = "0.28"
kira = "0.10"
ratatui = "0.29"
