[package]
name = "math_genealogy"
version = "0.1.0"
edition = "2021"
publish = false

[dependencies]
rand = "*"
tokio = { version = "*", default-features = false, features = ["rt-multi-thread", "macros", "time"] }
reqwest = { version = "*", default-features = false }
scraper = "*"
sqlx = { version = "*", default-features = false, features = ["runtime-tokio", "postgres"] }
tracing = "*"
tracing-subscriber = "*"
color-eyre = "*"
