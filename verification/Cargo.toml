[package]
name = "agent_kitten"
version = "0.1.0"
edition = "2021"
publish = false

[dependencies]
base64 = "0.22"
urlencoding = "2"
html-to-markdown-rs = "*"
bson = "2"
lavalink-rs = "*"
poise = "0.6"
tokio = { version = "1", features = ["full"] }
serde = { version = "1", features = ["derive"] }
serde_json = "1"
chrono = "0.4"
rand = "0.9"
reqwest = { version = "0.12", features = ["json"] }
futures = "0.3"
once_cell = "1"
human_bytes = "*"
sysinfo = "*"
