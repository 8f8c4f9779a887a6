[package]
name = "file_storage"
version = "0.1.0"
edition = "2021"
publish = false

[dependencies]
sha2 = "*"
serde = { version = "*", features = ["derive"] }
serde_json = "*"
toml = "*"
clap = { version = "*", features = ["derive"] }
thiserror = "*"
walkdir = "*"
daemonize = "*"
notify = "*"
notify-debouncer-mini = "*"
