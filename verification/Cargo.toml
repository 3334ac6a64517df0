[package]
name = "stock_snapshot"
version = "0.1.0"
edition = "2021"
publish = false

[dependencies]
clap = { version = "*", features = ["derive"] }
color-eyre = "*"
tokio = { version = "*", features = ["macros", "rt-multi-thread", "fs", "time"] }
yahoo_finance_api = "*"

[dev-dependencies]
csv = "*"
