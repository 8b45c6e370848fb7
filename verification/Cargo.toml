[package]
name = "tibber_refiner"
version = "0.1.0"
edition = "2021"
publish = false

[dependencies]
chrono = "*"
chrono-tz = "*"
influxdb = { version = "*", features = ["derive"] }
serde = { version = "*", features = ["derive"] }
serde_json = "*"
tokio = { version = "*", features = ["macros", "rt-multi-thread", "time"] }
futures = "*"
tracing = "*"
tracing-appender = "*"
tracing-subscriber = "*"
