[package]
name = "rustcop"
version = "0.1.0"
edition = "2021"
publish = false

[dependencies]
syn = { version = "2", features = ["full"] }
toml = "0.8"
globset = "0.4"
walkdir = "2"
serde = { version = "1", features = ["derive"] }
serde_json = "1"
serde-sarif = "*"
clap = { version = "4", features = ["derive"] }
colored = "2"
