[package]
name = "rewwise"
version = "0.1.0"
edition = "2021"
publish = false

[dependencies]
anyhow = "=1.0.104"
# Without `json`, which turns on `raw_value` of `serde_json`: objects with its private key would
# then not be read back as they were written.
axum = { version = "=0.7.9", default-features = false, features = ["form", "http1", "query", "tokio"] }
clap = { version = "=4.6.7", features = ["derive"] }
deku = "=0.16.0"
leptos = { version = "=0.6.15", features = ["ssr"] }
rusqlite = { version = "=0.31.0", features = ["bundled"] }
serde = { version = "=1.0.229", features = ["derive"] }
serde_json = { version = "=1.0.154", features = ["float_roundtrip", "preserve_order"] }
thiserror = "=1.0.69"
tokio = { version = "=1.54.1", features = ["macros", "net", "rt-multi-thread"] }
