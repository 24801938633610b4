[package]
name = "browser-cat"
version = "0.1.0"
edition = "2021"
publish = false

[dependencies]
regex = "1"
html-escape = "0.2"
bytes = "1"
clap = { version = "4", features = ["derive"] }
tokio = { version = "1", features = ["full"] }
axum = "0.8"
tokio-stream = "0.1"
