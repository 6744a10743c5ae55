[package]
name = "label_server"
version = "0.1.0"
edition = "2021"
publish = false

[dependencies]
ab_glyph = "=0.2.32"
axum = "=0.8.9"
base64 = "=0.22.1"
include_dir = "=0.7.4"
mime_guess = "=2.0.5"
png = "=0.18.1"
rusb = { version = "=0.9.4", features = ["vendored"] }
serde = { version = "=1.0.229", features = ["derive"] }
tokio = { version = "=1.54.1", features = ["rt-multi-thread", "macros", "net", "signal"] }
tower-http = { version = "=0.6.11", features = ["trace"] }
tracing = "=0.1.44"
tracing-subscriber = { version = "=0.3.23", features = ["env-filter"] }
