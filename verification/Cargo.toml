[package]
name = "lineeditor"
version = "0.1.0"
edition = "2021"
publish = false

[dependencies]
unicode-width = "*"
tui = "0.19"
crossterm = "0.25"
failure = "0.1"
