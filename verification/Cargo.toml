[package]
name = "simaris"
version = "0.1.0"
edition = "2021"
publish = false

[dependencies]
anyhow = "1"
serde = { version = "1", features = ["derive"] }
serde_json = "1"
serde_yml = "*"
uuid = { version = "1", features = ["v7"] }
rusqlite = { version = "*", features = ["bundled"] }
clap = { version = "4", features = ["derive"] }
dirs = "*"
ureq = { version = "2", features = ["json"] }
