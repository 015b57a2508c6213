[package]
name = "tokio_web_demo"
version = "0.1.0"
edition = "2021"
publish = false

[dependencies]
rand = "0.8"
seahash = "4"
axum = { version = "0.7", features = ["ws"] }
tokio = { version = "1", features = ["full"] }
futures = "0.3"
serde = { version = "1", features = ["derive"] }
serde_json = "1"
minijinja = { version = "2", features = ["loader"] }
chrono = "0.4"
log = "0.4"
sysinfo = "0.29"
redis = { version = "0.23", features = ["tokio-comp"] }
dotenv = "0.15"
pretty_env_logger = "0.5"
tower-http = { version = "0.5", features = ["fs"] }
