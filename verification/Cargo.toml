[package]
name = "events"
version = "0.1.0"
edition = "2021"
publish = false

[dependencies]
anyhow = "1"
cached = { version = "=0.56.0", features = ["async"] }
chrono = "=0.4.45"
chrono-tz = "=0.10.4"
icalendar = { version = "=0.17.17", features = ["parser"] }
reqwest = { version = "=0.12.28", default-features = false, features = ["rustls-tls"] }
rrule = "=0.14.0"
serde = { version = "1", features = ["derive"] }
serde_json = "=1.0.154"
serde_with = "=3.24.0"
urlencoding = "=2.1.3"
warp = "=0.4.3"
