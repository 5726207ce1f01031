[package]
name = "meshspace"
version = "0.1.0"
edition = "2021"
publish = false

[dependencies]
data-encoding = "2"
rand = "0.8"
anyhow = "1"
tokio = { version = "1", features = ["macros", "rt-multi-thread", "sync", "time"] }
futures-lite = "2"
crossterm = "0.28"
iroh = "*"
iroh-gossip = "*"
