[package]
name = "d-shark"
version = "0.1.0"
edition = "2021"
publish = false

[dependencies]
clap = { version = "4", features = ["derive"] }
crossterm = "0.27"
maxminddb = "0.23"
ratatui = "0.23"
tokio = { version = "1", features = ["macros", "rt-multi-thread"] }
