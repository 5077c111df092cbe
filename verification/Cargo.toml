[package]
name = "rollout_sessions"
version = "0.1.0"
edition = "2021"
publish = false

[dependencies]
uuid = "1"
serde_json = "1"
tokio = { version = "1", features = ["rt", "fs", "process"] }
libc = "0.2"
anyhow = "1"
toml_edit = "0.22"
tempfile = "3"
