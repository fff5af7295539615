[package]
name = "dtcore"
version = "0.1.0"
edition = "2021"
publish = false

[dependencies]
anyhow = "=1.0.104"
calamine = "=0.38.0"
clap = { version = "=4.6.7", features = ["derive"] }
polars = { version = "=0.55.2", default-features = false, features = ["csv", "parquet", "ipc", "json", "dtype-date", "dtype-datetime", "dtype-time", "dtype-duration", "fmt"] }
serde_json = "=1.0.154"
