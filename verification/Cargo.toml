[package]
name = "rsds"
version = "0.1.0"
edition = "2021"
publish = false

[dependencies]
bytes = "=1.12.1"
ctrlc = "=3.5.2"
futures = "=0.3.34"
hashbrown = "=0.17.1"
jemallocator = "=0.5.4"
log = "=0.4.34"
pretty_env_logger = "=0.5.0"
priority-queue = "=2.7.0"
rand = "=0.10.3"
rmp-serde = "=1.3.1"
serde = { version = "=1.0.229", features = ["derive"] }
structopt = "=0.3.26"
tokio = { version = "=1.54.1", features = ["full"] }
tokio-util = { version = "=0.7.20", features = ["codec"] }
