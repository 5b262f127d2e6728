[package]
name = "file_trackr"
version = "0.1.0"
edition = "2021"
publish = false

[dependencies]
chrono = "0.4"
clap = { version = "4", features = ["derive"] }
colored = "2"
dunce = "1"
humansize = "2"
serde = { version = "1", features = ["derive"] }
serde_json = "1"
shell-words = "1"
