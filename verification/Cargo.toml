[package]
name = "pratt_parser"
version = "0.1.0"
edition = "2021"
publish = false

[dependencies]
strum = { version = "0.27", features = ["derive"] }
thiserror = "2"
