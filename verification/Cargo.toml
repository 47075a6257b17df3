[package]
name = "zero2prod"
version = "0.1.0"
edition = "2021"
publish = false

[dependencies]
serde = { version = "1", features = ["derive"] }
hex = "0.4"
thiserror = "*"
anyhow = "1"
config = "*"
actix-web = "4"
tokio = { version = "1", features = ["macros", "rt-multi-thread"] }
tracing = "0.1"
tracing-subscriber = { version = "0.3", features = ["env-filter"] }
reqwest = { version = "*", default-features = false, features = ["blocking"] }
futures = "0.3"
testcontainers = "*"
