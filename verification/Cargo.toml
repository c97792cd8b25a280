[package]
name = "flatten"
version = "0.1.0"
edition = "2021"
publish = false

[dependencies]
kurbo = "0.11"
arrayvec = "0.7"
roxmltree = "0.20"
clap = { version = "4", features = ["derive"] }
