[package]
name = "merk_migrations"
version = "0.1.0"
edition = "2021"
publish = false

[dependencies]
anyhow = "=1.0.104"
clap = { version = "=4.6.7", features = ["derive", "env"] }
dotenvy = "=0.15.7"
rust-embed = { version = "=8.13.0", features = ["interpolate-folder-path"] }
surrealdb = { version = "=3.3.5", default-features = false, features = ["protocol-ws", "rustls"] }
thiserror = "=2.0.21"
tokio = { version = "=1.54.1", features = ["macros", "rt-multi-thread"] }
tracing = "=0.1.44"
tracing-subscriber = { version = "=0.3.23", features = ["env-filter"] }
