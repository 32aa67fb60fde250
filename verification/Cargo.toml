[package]
name = "sitemap_generator"
version = "0.1.0"
edition = "2021"
publish = false

[dependencies]
url = "2"
scraper = "*"
num_cpus = "1"
anyhow = "1"
tokio = { version = "1", features = ["rt-multi-thread", "sync", "macros", "io-std", "io-util"] }
reqwest = { version = "*", default-features = false }
clap = { version = "*", features = ["derive"] }
