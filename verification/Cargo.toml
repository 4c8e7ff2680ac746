[package]
name = "frontier_control"
version = "0.1.0"
edition = "2021"
publish = false

[dependencies]
timely = "0.12"
differential-dataflow = "0.12"
chrono = { version = "0.4", default-features = false, features = ["std", "serde"] }
serde = { version = "1", features = ["derive"] }
anyhow = "1"
tokio = { version = "1", features = ["macros", "rt", "sync", "time"] }
uuid = "1"
