[package]
name = "trellis"
version = "0.1.0"
edition = "2021"
publish = false

[dependencies]
metrics = "*"
metrics-exporter-prometheus = { version = "*", default-features = false }
opentelemetry = "*"
opentelemetry-otlp = { version = "*", default-features = false, features = ["grpc-tonic", "trace"] }
opentelemetry_sdk = "*"
tokio = { version = "1", features = ["rt-multi-thread", "sync", "time"] }
tokio-postgres = "0.7"
tracing = "0.1"
tracing-opentelemetry = "*"
tracing-subscriber = "0.3"

[dev-dependencies]
regex = "1"
