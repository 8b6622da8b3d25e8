[package]
name = "lang_1"
version = "0.1.0"
edition = "2021"
publish = false

[dependencies]
regex = "1"
