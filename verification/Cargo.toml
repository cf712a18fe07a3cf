[package]
name = "radiant"
version = "0.1.0"
edition = "2021"
publish = false

[dependencies]
itoa = "1"
ryu = "1"
bytes = "1"
futures-util = "0.3"
serde = { version = "1", features = ["derive"] }
serde_json = "1"
tokio = { version = "1", features = ["rt", "macros", "io-std", "time"] }
axum = "0.8"
tower-lsp = "0.20"
tracing = "0.1"
