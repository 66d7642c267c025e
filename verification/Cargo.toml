[package]
name = "sheetcalc"
version = "0.1.0"
edition = "2021"
publish = false

[dependencies]
crossterm = "=0.29.0"
unicode-width = "=0.2.2"
