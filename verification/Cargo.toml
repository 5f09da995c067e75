[package]
name = "mimir"
version = "0.1.0"
edition = "2021"
publish = false
rust-version = "1.95"

[dependencies]
anyhow = "=1.0.104"
chrono = { version = "=0.4.45", default-features = false, features = ["std", "clock"] }
clap = { version = "=4.6.7", features = ["derive"] }
kstring = "=2.0.2"
native-tls = "=0.2.18"
pgvector = { version = "=0.4.2", features = ["postgres"] }
postgres-native-tls = "=0.5.3"
reqwest = { version = "=0.12.28", default-features = false, features = ["json", "blocking", "native-tls"] }
serde = { version = "=1.0.229", features = ["derive"] }
serde_json = "=1.0.154"
tokenizers = { version = "=0.21.4", default-features = false, features = ["fancy-regex"] }
tokio = { version = "=1.54.1", features = ["rt-multi-thread", "macros", "io-util", "io-std", "sync", "time"] }
tokio-postgres = { version = "=0.7.18", features = ["with-uuid-1", "with-chrono-0_4"] }
toml = "0.8"
tracing = "=0.1.44"
tracing-subscriber = { version = "=0.3.23", features = ["env-filter"] }
tract-onnx = "=0.21.19"
uuid = { version = "=1.29.0", features = ["v4"] }
