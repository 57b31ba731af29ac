[package]
name = "todo_tui"
version = "0.1.0"
edition = "2021"
publish = false

[dependencies]
color-eyre = "*"
directories = "*"
ratatui = "*"
serde = { version = "*", features = ["derive"] }
serde_json = "*"
tui-input = "*"
