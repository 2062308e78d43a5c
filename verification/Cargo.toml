[package]
name = "gust"
version = "0.1.0"
edition = "2021"
publish = false

[dependencies]
sha1 = "=0.10.7"
flate2 = "=1.1.10"
deflate = "=1.0.0"
diffs = "=0.5.1"
regex = "1"
serde = { version = "1", features = ["derive"] }
serde_json = "1"
clap = { version = "4", features = ["derive"] }
