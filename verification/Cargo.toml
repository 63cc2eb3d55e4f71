[package]
name = "icehorn"
version = "0.1.0"
edition = "2021"
publish = false

[dependencies]
anyhow = "=1.0.104"
apache-avro = "=0.21.0"
bytes = "=1.12.1"
clap = { version = "=4.6.7", features = ["derive"] }
flate2 = "=1.1.10"
futures = "=0.3.34"
jiff = "=0.2.39"
object_store = { version = "=0.13.2", features = ["aws"] }
ratatui = "=0.30.2"
serde = { version = "=1.0.229", features = ["derive"] }
serde_json = "=1.0.154"
shutdown = "=0.5.0"
tokio = { version = "=1.54.1", features = ["full"] }
tokio-util = { version = "=0.7.20", features = ["io-util"] }
tracing = "=0.1.44"
tracing-subscriber = { version = "=0.3.23", features = ["env-filter"] }
tui-logger = { version = "=0.18.3", features = ["tracing-support"] }
uuid = "=1.29.0"
