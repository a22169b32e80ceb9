[package]
name = "teleport"
version = "0.1.0"
edition = "2021"
publish = false

[dependencies]
dirs = "*"
clap = { version = "4", features = ["derive"] }
serde = { version = "1", features = ["derive"] }
toml = "*"
rusqlite = { version = "*", features = ["bundled"] }

[dev-dependencies]
tempfile = "3"
