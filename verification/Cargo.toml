[package]
name = "matcher"
version = "0.1.0"
edition = "2021"
publish = false

[dependencies]
argon2 = "0.5"
async-trait = "0.1"
axum = "0.7"
axum-extra = { version = "0.9", features = ["cookie"] }
chrono = "0.4"
rusqlite = { version = "0.31", features = ["bundled"] }
serde = { version = "1", features = ["derive"] }
tera = "1"
tokio = { version = "1", features = ["full"] }
uuid = { version = "1", features = ["v4"] }
