[package]
name = "openquanter"
version = "0.1.0"
edition = "2021"
publish = false

[dependencies]
arrow-array = "*"
arrow-schema = "*"
bytes = "*"
parquet = { version = "*", default-features = false, features = ["arrow", "zstd"] }
