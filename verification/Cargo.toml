[package]
name = "fast_book"
version = "0.1.0"
edition = "2021"
publish = false

[dependencies]
actix = "*"
actix-web = "*"
actix-web-actors = "*"
firebase-auth = "*"
futures = "*"
rusqlite = { version = "*", features = ["bundled"] }
serde = { version = "*", features = ["derive"] }
serde_json = "*"
tokio = { version = "*", features = ["sync", "time"] }
tokio-stream = { version = "*", features = ["sync"] }
