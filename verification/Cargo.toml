[package]
name = "serialcat"
version = "0.1.0"
edition = "2021"
publish = false

[dependencies]
anyhow = "1"
bytes = "1"
futures = "0.3"
structopt = "0.3"
tokio = { version = "1", features = ["io-util", "io-std", "macros", "rt-multi-thread", "time"] }
tokio-serial = "5"
