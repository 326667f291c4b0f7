[package]
name = "rust_sem"
version = "0.1.0"
edition = "2021"
publish = false

[dependencies]
clap = "4"
human_bytes = "0.4"
