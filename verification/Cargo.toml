[package]
name = "kindle_to_markdown"
version = "0.1.1"
edition = "2021"
publish = false

[dependencies]
regex = "1"
directories = "6"
serde = { version = "1", features = ["derive"] }
toml = "0.9"
clap = { version = "4", features = ["derive"] }
anyhow = "1"

[dev-dependencies]
tempfile = "3"
