[package]
name = "avif_generator"
version = "0.1.0"
edition = "2021"
publish = false

[dependencies]
anyhow = "=1.0.104"
axum = "=0.8.9"
chrono = { version = "=0.4.45", default-features = false, features = ["clock"] }
clap = { version = "=4.6.7", features = ["derive"] }
futures = "=0.3.34"
image = { version = "=0.25.10", default-features = false, features = ["jpeg", "png"] }
oauth2 = "=5.0.0"
ravif = { version = "=0.13.0", default-features = false, features = ["threading"] }
reqwest = { version = "=0.12.28", default-features = false, features = ["json"] }
rgb = "=0.8.53"
serde = { version = "=1.0.229", features = ["derive"] }
serde_json = "=1.0.151"
sqlx = { version = "=0.9.0", default-features = false, features = ["runtime-tokio", "sqlite"] }
tokio = { version = "=1.53.2", features = ["rt-multi-thread", "macros", "fs", "sync", "time", "net"] }
toml = "=1.1.7"
tower-http = { version = "=0.6.11", default-features = false, features = ["cors"] }
tracing = "=0.1.44"
tracing-subscriber = { version = "=0.3.23", features = ["env-filter"] }
