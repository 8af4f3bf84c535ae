[package]
name = "recall"
version = "0.1.0"
edition = "2021"
publish = false

[dependencies]
anyhow = "1"
clap = { version = "4", features = ["derive"] }
dirs = "5"
gethostname = "0.5"
supports-hyperlinks = "3"

[dev-dependencies]
serde_json = "1"
regex = "1"
