[package]
name = "binance_futures_collector"
version = "0.1.0"
edition = "2021"
publish = false

[dependencies]
anyhow = "1"
chrono = "0.4"
dashmap = "*"
flexi_logger = "*"
futures-util = "0.3"
libc = "0.2"
log = "0.4"
parking_lot = "0.12"
rand = "0.8"
reqwest = { version = "0.12", default-features = false, features = ["json", "rustls-tls"] }
rustc-hash = "*"
serde = { version = "1", features = ["derive"] }
serde_json = "1"
tikv-jemallocator = "*"
tokio = { version = "1", features = ["full"] }
tokio-tungstenite = { version = "*", features = ["rustls-tls-webpki-roots"] }
toml = "0.8"
