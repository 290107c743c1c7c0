[package]
name = "lang"
version = "0.1.0"
edition = "2021"
publish = false

[dependencies]
rowan = "0.10"
logos = "0.11"
