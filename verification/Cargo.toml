[package]
name = "pgsubset"
version = "0.1.0"
edition = "2021"
publish = false

[dependencies]
anyhow = "*"
clap = { version = "*", features = ["derive"] }
env_logger = "*"
fake = "2"
futures = "*"
petgraph = "*"
serde = { version = "*", features = ["derive"] }
sqlx = { version = "0.8", default-features = false, features = ["runtime-tokio", "postgres"] }
tokio = { version = "*", features = ["full"] }
toml = "*"
