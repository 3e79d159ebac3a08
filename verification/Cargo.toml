[package]
name = "bcd_tables"
version = "0.1.0"
edition = "2021"
publish = false

[dependencies]
winsafe = { version = "=0.0.29", features = ["gui"] }
