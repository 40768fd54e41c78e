[package]
name = "rwr_profile"
version = "0.1.0"
edition = "2021"
publish = false

[dependencies]
quick-xml = "0.22"
regex = "1"
anyhow = "1"
serde = { version = "1", features = ["derive"] }
serde_json = "1"
tokio = { version = "1", features = ["full"] }
futures = "0.3"
futures-util = "0.3"
rayon = "1"
chrono = "0.4"
tracing = "0.1"
tracing-subscriber = "0.3"
tracing-appender = "0.2"
actix-web = { version = "4", default-features = false, features = ["macros"] }
actix-files = "0.6"
actix-multipart = { version = "0.4", default-features = false }
