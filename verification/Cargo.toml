[package]
name = "backend_frontend"
version = "0.1.0"
edition = "2021"
publish = false

[dependencies]
axum = { version = "*", features = ["ws"] }
base64 = "*"
futures = "*"
reqwest = { version = "*", default-features = false, features = ["json"] }
serde = { version = "*", features = ["derive"] }
serde_json = "*"
tokio = { version = "*", features = ["macros", "rt-multi-thread", "sync", "time", "net"] }
tower-http = { version = "*", features = ["fs"] }
tracing = "*"
tracing-subscriber = "*"
