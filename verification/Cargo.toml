[package]
name = "breadcrumbs"
version = "0.1.0"
edition = "2021"
publish = false

[dependencies]
serde = { version = "1", features = ["derive"] }
serde_json = "1"
rusqlite = { version = "*", features = ["bundled"] }
ureq = { version = "2", default-features = false, features = ["json"] }
chrono = "0.4"
dirs = "*"
