[package]
name = "outbox_kit"
version = "0.1.0"
edition = "2021"
publish = false

[dependencies]
async-trait = "0.1"
breaker = "2"
futures = "0.3"
rand = "*"
rusqlite = { version = "*", features = ["bundled"] }
serde = { version = "1", features = ["derive"] }
thiserror = "2"
tokio = { version = "1", features = ["macros", "rt", "sync", "time"] }
uuid = { version = "1", features = ["v7"] }
