[package]
name = "photo_catalog"
version = "0.1.0"
edition = "2021"
publish = false

[dependencies]
chrono = "*"
image = "*"
rexif = "*"
rusqlite = { version = "*", features = ["bundled"] }
walkdir = "*"
