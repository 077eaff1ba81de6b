[package]
name = "resyn_core"
version = "0.1.0"
edition = "2021"
publish = false

[dependencies]
sha2 = "=0.10.9"
regex = "=1.13.1"
stop-words = "=0.10.1"
chrono = { version = "=0.4.45", default-features = false, features = ["clock"] }
serde = { version = "=1.0.229", features = ["derive"] }
serde_json = "=1.0.154"
scraper = "=0.29.0"
async-trait = "=0.1.92"
clap = { version = "=4.6.7", features = ["derive"] }
tokio = { version = "=1.54.1", features = ["rt-multi-thread", "macros", "time"] }
reqwest = { version = "=0.12.28", default-features = false, features = ["json", "rustls-tls"] }
petgraph = "=0.7.1"
single-clustering = { version = "=0.6.1", default-features = false }
