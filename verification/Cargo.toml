[package]
name = "notes_core"
version = "0.1.0"
edition = "2021"
publish = false

[dependencies]
uuid = { version = "=1.29.1", features = ["v4", "serde"] }
slug = "=0.1.6"
chrono = { version = "=0.4.45", features = ["serde"] }
serde = { version = "=1.0.229", features = ["derive"] }
serde_json = "=1.0.154"
axum = "=0.8.9"
axum-macros = "=0.5.1"
sqlx = { version = "=0.8.6", default-features = false, features = ["postgres", "uuid", "chrono", "json", "runtime-tokio"] }
