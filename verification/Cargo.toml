[package]
name = "coral_redis"
version = "0.1.0"
edition = "2021"
publish = false

[dependencies]
bytes = "=1.12.1"
papaya = "=0.2.5"
tokio = { version = "=1.53.2", features = ["rt-multi-thread", "net", "io-util", "time", "macros"] }
clap = { version = "=4.6.7", features = ["derive"] }
serde = { version = "=1.0.229", features = ["derive"] }
serde_json = "=1.0.151"
thiserror = "=1.0.69"
tracing = "=0.1.44"
tracing-subscriber = "=0.3.23"
async-trait = "=0.1.92"
opentelemetry = { version = "=0.21.0", features = ["metrics"] }
opentelemetry_sdk = { version = "=0.21.2", features = ["metrics"] }
aws-config = "=1.12.0"
aws-sdk-s3 = "=1.152.0"
lmdb = "=0.8.0"
