[package]
name = "beluga"
version = "0.1.0"
edition = "2021"
publish = false

[dependencies]
mime_guess = "=2.0.5"
serde = { version = "=1.0.229", features = ["derive"] }
serde_json = "=1.0.154"
anyhow = "=1.0.104"
log = "=0.4.34"
tracing = "=0.1.44"
tokio = { version = "=1.54.1", features = ["fs", "net", "sync", "time", "rt-multi-thread", "macros"] }
axum = "=0.7.9"
axum-extra = { version = "=0.9.6", features = ["cookie"] }
dirs = "=7.0.0"
tracing-appender = "=0.2.5"
tracing-subscriber = "=0.3.23"
sqlx = { version = "=0.8.6", default-features = false, features = ["sqlite", "runtime-tokio", "derive"] }
ocrs = "=0.13.1"
rten = "=0.26.0"
rten-imageproc = "=0.26.0"
xcap = "=0.9.8"
mouse_position = "=0.1.4"
