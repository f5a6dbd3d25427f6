[package]
name = "wasteday"
version = "0.1.0"
edition = "2021"
publish = false

[dependencies]
chrono = "*"
rusqlite = { version = "*", features = ["bundled"] }
