[package]
name = "syl"
version = "0.1.0"
edition = "2021"
publish = false

[dependencies]
rusqlite = { version = "*", features = ["bundled"] }
ureq = "2"
rouille = "3"
clap = { version = "4", features = ["derive"] }
directories = "*"
toml = "*"
quick-xml = "*"
serde = { version = "1", features = ["derive"] }
