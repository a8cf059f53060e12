[package]
name = "rowjoin"
version = "0.1.0"
edition = "2021"
publish = false

[dependencies]
async-once-cell = "*"
deadpool = "*"
futures = { version = "*", default-features = false, features = ["executor", "std"] }
sqlx = { version = "*", default-features = false, features = ["derive", "migrate", "runtime-tokio", "sqlite"] }
