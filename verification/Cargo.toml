[package]
name = "mtr_runner"
version = "0.1.0"
edition = "2021"
publish = false

[dependencies]
anyhow = "1"
clap = { version = "4", features = ["derive"] }
mysql_async = "*"
regex = "1"
serde = { version = "1", features = ["derive"] }
tokio = { version = "1", features = ["macros", "rt-multi-thread"] }
toml = "*"
tracing-subscriber = { version = "0.3", features = ["env-filter"] }
walkdir = "2"
