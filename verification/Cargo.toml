[package]
name = "file_search_app"
version = "0.2.4"
edition = "2021"
publish = false

[dependencies]
anyhow = "1"
chrono = "0.4"
dirs = "5"
encoding_rs = "0.8"
log = "0.4"
notify = "6"
notify-debouncer-full = "0.3"
pdf-extract = "0.7"
quick-xml = "0.36"
reqwest = { version = "0.12", default-features = false, features = ["blocking"] }
rusqlite = { version = "0.31", features = ["bundled"] }
serde = { version = "1", features = ["derive"] }
serde_json = "1"
tantivy = "0.22"
uuid = { version = "1", features = ["v4"] }
walkdir = "2"
zip = { version = "2", default-features = false, features = ["deflate"] }
