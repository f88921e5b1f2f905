[package]
name = "bakka"
version = "0.1.0"
edition = "2021"
publish = false

[dependencies]
anyhow = "1"
clap = { version = "3", features = ["derive"] }
cursive = "*"
cursive_tree_view = "*"
dialoguer = "0.10"
serde_json = "1"
strsim = "0.10"
tempfile = "3"
walkdir = "2"

[dev-dependencies]
nom = "7"
