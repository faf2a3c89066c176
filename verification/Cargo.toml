[package]
name = "libdoh"
version = "0.1.0"
edition = "2021"
publish = false

[dependencies]
anyhow = "1"
base64 = "0.22"
byteorder = "1"
hyper = "1"
rand = "0.8"
serde = { version = "1", features = ["derive"] }
opentelemetry = { version = "*", default-features = false, features = ["metrics"] }
opentelemetry_sdk = { version = "*", default-features = false, features = ["metrics"] }
opentelemetry-otlp = { version = "*", default-features = false, features = ["metrics", "http-proto"] }
