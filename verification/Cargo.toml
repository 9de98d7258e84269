[package]
name = "cilens"
version = "0.1.0"
edition = "2021"
publish = false

[dependencies]
chrono = { version = "=0.4.45", features = ["serde"] }
clap = { version = "=4.6.7", features = ["derive", "env"] }
comfy-table = "=7.2.2"
console = "=0.15.11"
dirs = "=5.0.1"
env_logger = "=0.11.11"
futures = "=0.3.34"
graphql_client = { version = "=0.14.0", default-features = false }
indicatif = "=0.17.11"
log = "=0.4.34"
reqwest = { version = "=0.12.28", default-features = false, features = ["json", "rustls-tls"] }
serde = { version = "=1.0.229", features = ["derive"] }
serde_json = "=1.0.154"
serde_yaml = "=0.9.34"
thiserror = "=1.0.69"
tokio = { version = "=1.54.1", features = ["full"] }
toml = "=0.8.23"
url = "=2.5.8"
urlencoding = "=2.1.3"
