[package]
name = "hashcrack"
version = "0.1.0"
edition = "2021"
publish = false

[dependencies]
hex = "0.4"
sha2 = "0.10"
md5 = "0.7"
clap = { version = "4", features = ["derive"] }
eyre = "0.6"
futures = "0.3"
num_cpus = "1"
tokio = { version = "1", features = ["fs", "io-util", "macros", "rt-multi-thread", "sync"] }
tokio-stream = { version = "0.1", features = ["io-util"] }
