[package]
name = "cr_data_collector"
version = "0.1.0"
edition = "2021"
publish = false

[dependencies]
sha2 = "0.10"
serde = { version = "1", features = ["derive"] }
tokio = { version = "1", features = ["full"] }
futures = "0.3"
reqwest = { version = "0.12", features = ["json"] }
deadpool-sqlite = "*"
rusqlite = "*"
dotenvy = "0.15"
tracing = "0.1"
tracing-subscriber = "0.3"
linfa = "0.7"
linfa-clustering = "0.7"
ndarray = "0.15"
rand = "0.8"
rand_xoshiro = "0.6"
pyo3 = "*"
