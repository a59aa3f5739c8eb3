[package]
name = "task_tracker"
version = "0.1.0"
edition = "2021"
publish = false

[dependencies]
chrono = "*"
chrono-humanize = "*"
clap = { version = "*", features = ["derive"] }

[dev-dependencies]
serde_json = "*"
