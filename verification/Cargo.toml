[package]
name = "zksync_dal"
version = "0.1.0"
edition = "2021"
publish = false

[dependencies]
bigdecimal = "*"
blake2 = "0.10"
sqlx = { version = "0.7", default-features = false, features = ["postgres", "runtime-tokio", "chrono", "bigdecimal"] }
tracing = "0.1"
