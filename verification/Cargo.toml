[package]
name = "streaming_bench"
version = "0.1.0"
edition = "2021"
publish = false

[dependencies]
aes-gcm = "0.10"
axum = "0.7"
bytes = "1"
chrono = "0.4"
clap = { version = "4", features = ["derive"] }
csv = "1"
futures = "0.3"
hdrhistogram = { version = "7", default-features = false }
hex = "0.4"
rand = "0.8"
rayon = "1"
reqwest = { version = "0.12", default-features = false, features = ["stream"] }
serde = { version = "1", features = ["derive"] }
serde_json = "1"
sha2 = "0.11"
sysinfo = "0.30"
tokio = { version = "1", features = ["full"] }
tokio-stream = "0.1"
tracing-subscriber = "0.3"
