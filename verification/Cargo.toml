[package]
name = "csv_async"
version = "0.1.0"
edition = "2021"
publish = false

[dependencies]
csv-core = "0.1"
futures = "0.3"
