[package]
name = "tracemsgextractor"
version = "0.1.0"
edition = "2021"
publish = false

[dependencies]
json = "*"
chrono = "*"
clap = { version = "*", features = ["derive"] }
alphanumeric-sort = "*"
