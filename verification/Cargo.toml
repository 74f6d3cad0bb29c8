[package]
name = "proc_mem_exporter"
version = "0.1.0"
edition = "2021"
publish = false

[dependencies]
rand = "*"
tokio = { version = "*", features = ["macros", "rt-multi-thread", "signal", "sync", "time", "net"] }
axum = "*"
clap = { version = "*", features = ["derive"] }
serde = { version = "*", features = ["derive"] }
serde_json = "*"
chrono = "*"
prometheus = "*"
tracing = "*"
tracing-subscriber = "*"
rayon = "*"
