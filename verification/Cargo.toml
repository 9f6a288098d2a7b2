[package]
name = "tar"
version = "0.1.0"
edition = "2021"
publish = false

[dependencies]
async-trait = "0.1"
clap = { version = "4", features = ["derive"] }
flate2 = "1"
futures = "0.3"
indicatif = "0.17"
tokio = { version = "1", features = ["fs", "io-util", "macros", "rt"] }
