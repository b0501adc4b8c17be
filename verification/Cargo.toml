[package]
name = "stocktrader"
version = "0.1.0"
edition = "2021"
publish = false

[dependencies]
chrono = "*"
clap = { version = "*", features = ["derive"] }
lettre = "*"
time = { version = "*", features = ["macros"] }
tokio-test = "*"
yahoo_finance_api = "*"
