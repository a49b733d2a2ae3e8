[package]
name = "relpos"
version = "0.1.0"
edition = "2021"
publish = false

[dependencies]
rust_tokenizers = "=6.2.5"
