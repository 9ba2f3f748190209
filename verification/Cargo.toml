[package]
name = "fixed"
version = "0.1.0"
edition = "2021"
publish = false

[dependencies]
az = "0.3"
half = "1"
