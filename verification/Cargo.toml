[package]
name = "hunger"
version = "0.1.0"
edition = "2021"
publish = false

[dependencies]
anyhow = "=1.0.104"
chrono = { version = "=0.4.45", default-features = false, features = ["std", "serde"] }
eframe = { version = "=0.37.0", default-features = false, features = ["glow", "default_fonts", "x11"] }
glam = "=0.34.2"
regex = "=1.13.1"
reqwest = { version = "=0.12.28", default-features = false, features = ["json", "rustls-tls"] }
scraper = "=0.29.0"
serde = { version = "=1.0.229", features = ["derive"] }
serde_json = "=1.0.154"
sha2 = "=0.10.9"
sqlx = { version = "=0.8.6", default-features = false, features = ["runtime-tokio", "sqlite"] }
tokio = { version = "=1.54.1", features = ["rt-multi-thread", "macros", "sync", "fs", "time"] }
tracing = "=0.1.44"
url = "=2.5.8"
