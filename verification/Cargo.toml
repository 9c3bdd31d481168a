[package]
name = "serveit"
version = "0.1.0"
edition = "2021"
publish = false

[dependencies]
axum = "*"
clap = { version = "*", features = ["derive"] }
mime_guess = "*"
tokio = { version = "*", features = ["full"] }
urlencoding = "*"
