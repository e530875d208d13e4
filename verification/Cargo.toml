[package]
name = "oh_hell"
version = "0.1.0"
edition = "2021"
publish = false

[dependencies]
rand = "=0.8.8"
indexmap = "=2.14.2"
serde = { version = "1", features = ["derive"] }
serde_json = "1"
axum = { version = "0.7", features = ["ws"] }
tokio = { version = "1", features = ["rt-multi-thread", "macros", "net"] }
futures = "0.3"
jsonwebtoken = "9"
mongodb = "3"
chrono = { version = "0.4", features = ["serde"] }
reqwest = { version = "0.12", default-features = false, features = ["json"] }
thiserror = "1"
tower-http = { version = "0.5", features = ["cors", "trace"] }
tracing = "0.1"
tracing-subscriber = { version = "0.3", features = ["env-filter"] }
dotenv = "0.15"
