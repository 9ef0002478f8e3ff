[package]
name = "markdown_db"
version = "0.1.0"
edition = "2021"
publish = false

[dependencies]
base64 = "*"
url = "*"
urlencoding = "*"
clap = { version = "*", features = ["derive"] }
walkdir = "*"
directories = "*"
chrono = "*"
rusqlite = { version = "*", features = ["bundled"] }
serde = { version = "*", features = ["derive"] }
serde_json = "*"
