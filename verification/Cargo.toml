[package]
name = "notivlaai"
version = "0.1.0"
edition = "2021"
publish = false

[dependencies]
anyhow = "1"
csv = "1"
diesel = { version = "1.4", features = ["sqlite", "r2d2"] }
diesel_migrations = "1.4"
dotenv = "0.15"
futures-util = "0.3"
lazy_static = "1.4"
log = "0.4"
pretty_env_logger = "0.4"
serde = { version = "1", features = ["derive"] }
serde_json = "1"
tokio = { version = "0.2", features = ["sync", "rt-threaded", "tcp", "macros", "stream"] }
tokio-tungstenite = "0.11"
tungstenite = "0.11"
warp = "0.2"
