[package]
name = "fjallstream"
version = "0.1.0"
edition = "2021"
publish = false

[dependencies]
async-trait = "=0.1.92"
bytes = "=1.12.1"
fjall = "=3.1.13"
flate2 = "=1.1.10"
serde = { version = "=1.0.229", features = ["derive"] }
serde_json = "=1.0.154"
thiserror = "=2.0.21"
tokio = { version = "=1.54.1", features = ["fs", "io-util", "rt", "sync", "time"] }

[dev-dependencies]
tempfile = "=3.27.0"
