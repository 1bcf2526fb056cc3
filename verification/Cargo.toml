[package]
name = "octi"
version = "0.1.0"
edition = "2021"
publish = false

[dependencies]
serde = { version = "1", features = ["derive"] }
serde_json = "1"
csv = "1"
crossterm = "0.25"
tui = { version = "0.19", features = ["crossterm"] }
