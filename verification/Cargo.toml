[package]
name = "todo_tui"
version = "0.1.0"
edition = "2021"
publish = false

[dependencies]
chrono = "0.4"
unicode-width = "0.2"
rusqlite = { version = "0.32", features = ["bundled"] }
ratatui = "0.29"
tui-input = { version = "0.11", default-features = false }
clap = { version = "4", features = ["derive"] }
anyhow = "1"
thiserror = "2"
serde = { version = "1", features = ["derive"] }
serde_json = "1"
dirs = "5"
