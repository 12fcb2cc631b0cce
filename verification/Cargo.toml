[package]
name = "sea_router"
version = "0.1.0"
edition = "2021"
publish = false

[dependencies]
axum = "0.8"
rayon = "1"
rstar = "0.12"
serde = { version = "1", features = ["derive"] }
serde_json = "1"
tokio = { version = "1", features = ["full"] }
tower-http = { version = "0.6", features = ["cors"] }
