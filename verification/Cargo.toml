[package]
name = "busybee"
version = "0.4.0"
edition = "2021"
publish = false

[dependencies]
anyhow = "=1.0.104"
chrono = "=0.4.45"
clap = { version = "=4.6.7", features = ["derive"] }
crossterm = { version = "=0.28.1", features = ["event-stream"] }
futures = "=0.3.34"
libc = "=0.2.191"
pueue-lib = "=0.31.1"
ratatui = "=0.28.1"
serde = { version = "=1.0.229", features = ["derive"] }
serde_json = "=1.0.154"
snap = "=1.1.2"
thiserror = "=2.0.21"
tokio = { version = "=1.54.1", features = ["full"] }
toml = "=0.9.12"
tracing = "=0.1.44"
tracing-subscriber = "=0.3.23"
which = "=7.0.3"

[dev-dependencies]
tempfile = "=3.27.0"
