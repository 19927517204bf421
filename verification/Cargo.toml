[package]
name = "fukurow"
version = "0.1.0"
edition = "2021"
publish = false

[dependencies]
smallvec = "1"
regex = "1"
serde = { version = "1", features = ["derive"] }
serde_json = "1"
chrono = "0.4"
clap = { version = "4", features = ["derive"] }
anyhow = "1"
thiserror = "1"
shell-words = "1"
uuid = { version = "1", features = ["v4"] }
lazy_static = "1"
async-trait = "0.1"
futures = "0.3"
tokio = { version = "1", features = ["macros", "rt-multi-thread", "signal", "net", "sync", "time"] }
axum = "0.7"
tracing = "0.1"
tracing-subscriber = "0.3"
