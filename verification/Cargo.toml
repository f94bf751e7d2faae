[package]
name = "aiterm"
version = "0.1.0"
edition = "2021"
publish = false

[dependencies]
anyhow = "*"
async-stream = "*"
async-trait = "*"
clap = { version = "*", features = ["derive"] }
dirs = "*"
reqwest = { version = "*", default-features = false, features = ["json", "stream"] }
serde = { version = "*", features = ["derive"] }
serde_json = "*"
tokio = { version = "*", features = ["macros", "rt-multi-thread"] }
tokio-stream = "*"
toml = "*"
walkdir = "*"
