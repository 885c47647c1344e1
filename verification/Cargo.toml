[package]
name = "discord_guild_crawler"
version = "0.1.0"
edition = "2021"
publish = false

[dependencies]
clap = "=4.6.7"
meilisearch-sdk = "=0.33.0"
progress_bar = "=1.5.2"
pkg-version = "=1.0.0"
futures = "=0.3.34"
serde = { version = "*", features = ["derive"] }
