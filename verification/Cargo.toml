[package]
name = "gridpath"
version = "0.1.0"
edition = "2021"
publish = false

[dependencies]
axum = "=0.7.9"
mimalloc = "=0.1.52"
serde = { version = "=1.0.229", features = ["derive"] }
serde_json = "=1.0.154"
tokio = { version = "=1.54.1", features = ["macros", "rt", "net"] }
tower-http = { version = "=0.5.2", features = ["compression-full", "cors", "fs", "trace"] }
tracing = "=0.1.44"
tracing-subscriber = "=0.3.23"

[dev-dependencies]
seastar = "=0.3.1"
