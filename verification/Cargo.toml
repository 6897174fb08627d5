[package]
name = "ssh_tui_rs"
version = "0.1.0"
edition = "2021"
publish = false

[dependencies]
anyhow = "1"
arboard = "*"
base64 = "0.22"
clap = { version = "4", features = ["derive"] }
crossterm = "*"
dirs = "*"
fuzzy-matcher = "0.3"
glob = "0.3"
ratatui = "*"
shell-words = "1"
strip-ansi-escapes = "*"
tastty = "*"
