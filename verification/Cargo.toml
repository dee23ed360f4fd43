[package]
name = "life_expectancy"
version = "0.1.0"
edition = "2021"
publish = false

[dependencies]
csv = "1"
itertools = "*"
serde = { version = "1", features = ["derive"] }
