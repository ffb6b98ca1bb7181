[package]
name = "mitame"
version = "0.2.0"
edition = "2021"
publish = false

[dependencies]
clap = { version = "4", features = ["derive", "env"] }
globset = "0.4"
image = { version = "0.25", default-features = false, features = ["png"] }
rayon = "1"
schemars = "0.8"
serde = { version = "1", features = ["derive"] }
serde_json = { version = "1", features = ["preserve_order"] }
thiserror = "2"
toml = "0.8"
walkdir = "2"
