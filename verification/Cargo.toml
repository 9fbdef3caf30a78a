[package]
name = "magnets"
version = "0.1.0"
edition = "2021"
publish = false

[dependencies]
regex = "=1.13.1"
smallvec = "=1.16.4"
unicode-normalization = "=0.1.26"
rust_decimal = "=1.43.0"
percent-encoding = "=2.3.2"
hex = "=0.4.3"
url = "=2.5.8"
chrono = "=0.4.45"
tokio = { version = "=1.54.1", features = ["full"] }
tokio-postgres = { version = "=0.7.18", features = ["with-chrono-0_4", "with-serde_json-1"] }
tokio-postgres-rustls = "*"
rustls = "=0.23.46"
rustls-native-certs = "*"
reqwest = { version = "=0.12.28", default-features = false, features = ["json", "rustls-tls"] }
scraper = "=0.29.0"
serde = { version = "=1.0.229", features = ["derive"] }
serde_json = "=1.0.154"
anyhow = "=1.0.104"
log = "=0.4.34"
env_logger = "=0.11.11"
toml = "=1.1.8"
futures = "=0.3.34"
parse_duration = "=2.1.1"
