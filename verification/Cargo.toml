[package]
name = "spreadsheet"
version = "0.1.0"
edition = "2021"
publish = false

[dependencies]
crossterm = "0.28"
lazy_static = "1"
rand = "0.8"
