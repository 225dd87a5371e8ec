[package]
name = "md-previewer"
version = "0.1.0"
edition = "2021"
publish = false

[dependencies]
pulldown-cmark = "*"
clap = { version = "*", features = ["derive"] }
serde = { version = "*", features = ["derive"] }
toml = "*"
dirs = "*"
notify = "*"
ctrlc = "*"
webbrowser = "*"
axum = { version = "*", features = ["ws"] }
tokio = { version = "*", features = ["full"] }
