[package]
name = "star_toml"
version = "0.1.0"
edition = "2021"
publish = false

[dependencies]
toml = "=0.8.23"
blake3 = "=1.8.7"
serde = { version = "=1.0.229", features = ["derive"] }
serde_json = "=1.0.154"
thiserror = "=1.0.69"
wasm4pm-compat = "=26.6.29"
lsp-max = "=26.7.3"
tokio = { version = "=1.54.1", features = ["rt-multi-thread", "macros", "io-std", "sync"] }
anyhow = "=1.0.104"
url = "=2.5.8"
tracing = "=0.1.44"
tracing-subscriber = "=0.3.23"

[dev-dependencies]
tempfile = "=3.27.0"
