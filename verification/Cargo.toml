[package]
name = "legendre"
version = "0.1.0"
edition = "2021"
publish = false

[dependencies]
rayon = "1"
parking_lot = "0.12"
tokio = { version = "1", features = ["rt", "sync"] }
indicatif = "*"
thiserror = "2"
tracing = "0.1"
parquet = { version = "*", default-features = false, features = ["snap"] }
