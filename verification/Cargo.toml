[package]
name = "deltatree"
version = "0.1.0"
edition = "2021"
publish = false

[dependencies]
anyhow = "=1.0.104"
deltalake = { version = "=1.1.2", default-features = false, features = ["rustls"] }
itertools = "=0.15.0"
parquet = { version = "=59.3.1", default-features = false }
tokio = { version = "=1.54.1", features = ["macros", "rt"] }
uuid = "=1.29.0"
