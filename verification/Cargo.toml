[package]
name = "insearch"
version = "0.6.0"
edition = "2021"
publish = false

[dependencies]
regex = "1"
grep-regex = "*"
grep-matcher = "*"
grep-searcher = "*"
ignore = "*"
chrono = "0.4"
quick-xml = "*"
crossbeam-channel = "*"
serde = { version = "1", features = ["derive"] }
serde_json = "1"
zip = { version = "*", default-features = false, features = ["deflate"] }
calamine = "*"
pdf-extract = "*"
notify-debouncer-full = "*"
