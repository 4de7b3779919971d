[package]
name = "epub_voicevox"
version = "0.1.0"
edition = "2021"
publish = false

[dependencies]
unicode-width = "*"
path-clean = "*"
scraper = "*"
image = { version = "*", default-features = false, features = ["png", "jpeg", "gif"] }
rbook = "*"
ratatui = { version = "*", default-features = false, features = ["crossterm"] }
ratatui-image = { version = "*", default-features = false, features = ["crossterm"] }
crossterm = "*"
clap = { version = "*", default-features = false, features = ["std", "derive", "help", "usage", "error-context"] }
reqwest = { version = "*", default-features = false, features = ["blocking", "json"] }
rodio = { version = "*", default-features = false, features = ["playback", "wav"] }
serde_json = "*"
anyhow = "*"
