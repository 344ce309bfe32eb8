[package]
name = "belt_router"
version = "0.1.0"
edition = "2021"
publish = false

[dependencies]
septem = "*"
anyhow = "*"
env_logger = "*"
log = "*"
reqwest = { version = "*", default-features = false, features = ["json", "rustls-tls"] }
serde = { version = "*", features = ["derive"] }
tokio = { version = "*", features = ["macros", "rt-multi-thread"] }
