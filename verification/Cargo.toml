[package]
name = "task_tui"
version = "0.1.0"
edition = "2021"
publish = false

[dependencies]
color-eyre = "0.6"
dirs = "6"
log = "0.4"
ratatui = "0.29"
serde = { version = "1", features = ["derive"] }
serde_json = "1"
tui-logger = "0.14"
