[package]
name = "nextcloud_ics_sync"
version = "0.1.0"
edition = "2021"
publish = false

[dependencies]
icalendar = "0.16"
urlencoding = "2"
anyhow = "1"
clap = { version = "4", features = ["derive"] }
dotenv = "0.15"
env_logger = "0.11"
futures = "0.3"
log = "0.4"
reqwest = "0.12"
serde = { version = "1", features = ["derive"] }
serde-xml-rs = "0.6"
tokio = { version = "1", features = ["rt-multi-thread", "macros"] }
