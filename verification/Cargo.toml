[package]
name = "phonebook"
version = "0.1.0"
edition = "2021"
publish = false

[dependencies]
actix-cors = "=0.6.5"
actix-files = "=0.6.10"
actix-web = { version = "=4.18.1", default-features = false, features = ["macros"] }
actix-web-lab = { version = "=0.29.5", features = ["spa"] }
anyhow = "=1.0.104"
env_logger = "=0.10.2"
fs2 = "=0.4.3"
hyper = { version = "=0.14.32", features = ["server", "http1", "tcp"] }
lazy_static = "=1.5.1"
log = "=0.4.34"
memmap2 = "=0.9.12"
parking_lot = "=0.12.5"
rand = "=0.8.8"
serde = { version = "=1.0.229", features = ["derive"] }
serde_json = "=1.0.154"
thiserror = "=1.0.69"
tokio = { version = "=1.54.1", features = ["full"] }
