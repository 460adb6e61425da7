[package]
name = "looper"
version = "0.1.0"
edition = "2021"
publish = false

[dependencies]
anyhow = "=1.0.104"
blake3 = "=1.8.7"
clap = { version = "=4.6.7", features = ["derive"] }
ctrlc = "=3.5.2"
directories = "=6.0.0"
dunce = "=1.0.5"
figment = { version = "=0.10.19", features = ["env", "json"] }
gix = { version = "=0.90.0", default-features = false, features = ["sha1"] }
ignore = "=0.4.34"
inquire = "=0.9.4"
notify-debouncer-full = "=0.7.0"
ratatui = "=0.30.2"
regex = "=1.13.1"
serde = { version = "=1.0.229", features = ["derive"] }
serde_json = "=1.0.154"
serde_yaml_ng = "=0.10.0"
tempfile = "=3.27.0"
thiserror = "=2.0.21"
tokio = { version = "=1.54.1", features = ["sync"] }
tracing = "=0.1.44"
tracing-appender = "=0.2.5"
tracing-subscriber = { version = "=0.3.23", features = ["env-filter", "json"] }
