[package]
name = "lector"
version = "0.1.0"
edition = "2021"
publish = false

[dependencies]
pulldown-cmark = "*"
ignore = "*"
notify = "*"
comrak = { version = "*", default-features = false }
orgize = "*"
rst_parser = "*"
rst_renderer = "*"
syntect = { version = "*", default-features = false, features = ["default-fancy"] }
ratatui = "*"
rusqlite = { version = "*", features = ["bundled"] }
serde = { version = "1", features = ["derive"] }
toml = "*"
directories = "*"
shellexpand = "*"
