[package]
name = "azula"
version = "0.1.0"
edition = "2021"
publish = false

[dependencies]
clap = { version = "3", features = ["derive"] }
inkwell = { version = "*", features = ["llvm18-1"] }
