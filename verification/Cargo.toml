[package]
name = "cargo_todoo"
version = "0.1.0"
edition = "2021"
publish = false

[dependencies]
regex = "*"
clap = { version = "*", features = ["derive"] }
tokio = { version = "*", features = ["fs", "io-util", "macros", "rt-multi-thread"] }
prettytable-rs = "*"
