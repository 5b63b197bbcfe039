[package]
name = "cu_bincode"
version = "0.1.0"
edition = "2021"
publish = false

[dependencies]
virtue = "0.0.18"
