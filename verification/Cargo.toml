[package]
name = "github_notifier"
version = "0.1.0"
edition = "2021"
publish = false

[dependencies]
regex = "=1.13.1"
actix-web = { version = "=4.15.0", default-features = false, features = ["macros"] }
anyhow = "=1.0.104"
chrono = "=0.4.45"
lazy_static = "=1.5.1"
log = "=0.4.34"
pretty_env_logger = "=0.5.0"
prometheus = "=0.14.0"
reqwest = { version = "=0.13.5", default-features = false, features = ["form"] }
serde = "=1.0.229"
serde_derive = "=1.0.229"
serde_json = "=1.0.151"
tokio = { version = "=1.53.2", default-features = false, features = ["macros", "rt-multi-thread", "time"] }
