[package]
name = "airbyte_to_flow"
version = "0.1.0"
edition = "2021"
publish = false

[dependencies]
anyhow = "1"
byteorder = "=1.5.0"
bytes = "1"
chrono = "=0.4.45"
clap = { version = "4", features = ["derive"] }
dateparser = "=0.2.1"
futures = "0.3"
prost = "*"
schemars = "0.8"
serde = { version = "1", features = ["derive"] }
serde_json = { version = "1", features = ["raw_value"] }
tempfile = "3"
thiserror = "1"
tokio = { version = "1", features = ["rt", "io-util", "io-std", "process", "sync", "time", "macros"] }
tokio-util = { version = "0.7", features = ["io"] }
tracing = "0.1"

[dev-dependencies]
json-patch = "=4.2.0"
regex = "1"
