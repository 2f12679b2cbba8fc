[package]
name = "smart_quiz"
version = "0.1.0"
edition = "2021"
publish = false

[dependencies]
jieba-rs = "*"
rusqlite = { version = "*", features = ["bundled"] }
zip = { version = "*", default-features = false, features = ["deflate"] }
calamine = "*"
rust_xlsxwriter = "*"
serde = { version = "*", features = ["derive"] }
serde_json = "*"
chrono = "*"
uuid = { version = "*", features = ["v4"] }
log = "*"
