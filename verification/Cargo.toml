[package]
name = "todo"
version = "0.1.0"
edition = "2021"
publish = false

[dependencies]
uuid = { version = "1", features = ["v4"] }
time = "0.3"
tempfile = "3"
fs4 = "*"
clap = { version = "4", features = ["derive"] }
anyhow = "1"

[dev-dependencies]
serde_json = "1"
