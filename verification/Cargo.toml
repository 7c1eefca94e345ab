[package]
name = "paint_by_number"
version = "0.1.0"
edition = "2021"
publish = false

[dependencies]
crossterm = "*"
