[package]
name = "qui"
version = "0.1.0"
edition = "2021"
publish = false

[dependencies]
anyhow = "=1.0.104"
clap = "=2.34.0"
futures = "=0.3.34"
rand = "=0.8.8"
serde = { version = "=1.0.229", features = ["derive"] }
serde_json = "=1.0.154"
termion = "=1.5.6"
thiserror = "=1.0.69"
tokio = { version = "=1.54.1", features = ["full"] }
traq = "*"
tui = "=0.14.0"
unicode-width = "=0.1.14"
webbrowser = "=0.5.5"
