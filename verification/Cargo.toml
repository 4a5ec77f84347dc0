[package]
name = "hala_pprof_memory"
version = "0.1.0"
edition = "2021"
publish = false

[dependencies]
backtrace = "0.3"
chrono = "0.4"
protobuf = "3"
serde = { version = "1", features = ["derive"] }
