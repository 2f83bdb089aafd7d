[package]
name = "portable_brains"
version = "0.1.0"
edition = "2021"
publish = false

[dependencies]
lopdf = "*"
scraper = "*"
zip = "*"
quick-xml = "*"
calamine = "*"
uuid = { version = "*", features = ["v4"] }
chrono = "*"
duckdb = "*"
anyhow = "*"
clap = { version = "*", features = ["derive"] }
reqwest = { version = "*", features = ["blocking", "json"] }
serde = { version = "*", features = ["derive"] }
serde_json = "*"
