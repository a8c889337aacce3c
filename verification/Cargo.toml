[package]
name = "grinta"
version = "0.1.0"
edition = "2021"
publish = false

[dependencies]
fuzzy-matcher = "0.3"
urlencoding = "2"
chrono = "0.4"
anyhow = "1"
clap = { version = "4", features = ["derive"] }
crossterm = "0.28"
dirs = "5"
open = "5"
ratatui = "0.29"
reqwest = { version = "0.12", default-features = false, features = ["json"] }
serde = { version = "1", features = ["derive"] }
serde_json = "1"
tokio = { version = "1", features = ["fs", "process", "sync", "time", "macros", "rt-multi-thread", "io-util"] }
tui-textarea = "0.7"
base64 = "0.22"
icns = "0.3"
image = { version = "0.25", default-features = false, features = ["png"] }
