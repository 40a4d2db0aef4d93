[package]
name = "axum_gcra"
version = "0.1.0"
edition = "2021"
publish = false

[dependencies]
ahash = "0.8"
axum = "0.8"
futures-util = "0.3"
http = "1"
pin-project-lite = "0.2"
tokio = { version = "1", features = ["macros", "rt", "sync", "time"] }
tower = { version = "0.5", features = ["util"] }
