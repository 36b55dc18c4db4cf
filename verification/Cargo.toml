[package]
name = "username_crawler"
version = "0.1.0"
edition = "2021"
publish = false

[dependencies]
color-eyre = "*"
grammers-client = "=0.10.0"
grammers-session = { version = "=0.10.0", default-features = false }
grammers-tl-types = "=0.10.0"
glass_pumpkin = "=2.0.0-rc0"
inquire = "*"
pretty_env_logger = "*"
serde = { version = "*", features = ["derive"] }
serde_json = "*"
tokio = { version = "*", features = ["macros", "rt-multi-thread"] }
