[package]
name = "station_store"
version = "0.1.0"
edition = "2021"
publish = false

[dependencies]
aws-config = "*"
aws-sdk-s3 = "*"
async-trait = "*"
tokio = { version = "*", features = ["rt", "macros"] }
