[package]
name = "multivector"
version = "0.1.0"
edition = "2021"
publish = false

[dependencies]
arrow = { version = "=58.4.1", default-features = false }
arrow-array = { version = "=58.4.1", default-features = false }
arrow-schema = { version = "=58.4.1", default-features = false }
datafusion = { version = "=54.1.0", default-features = false }
futures = "=0.3.34"
lance-core = { version = "=14.0.2", default-features = false }
lance-datafusion = { version = "=14.0.2", default-features = false }
lance-linalg = { version = "=14.0.2", default-features = false }
tokio = { version = "=1.54.1", features = ["rt"] }
