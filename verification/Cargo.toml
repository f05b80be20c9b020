[package]
name = "kz-selfplay"
version = "0.1.0"
edition = "2021"
publish = false

[dependencies]
board-game = "*"
crossbeam = "*"
flume = "*"
futures = { version = "0.3", features = ["thread-pool"] }
