[package]
name = "mctx"
version = "2.1.5"
edition = "2021"
publish = false

[dependencies]
crossterm = "0.28"
ratatui = "0.29"
