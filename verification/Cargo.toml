[package]
name = "arbgraph"
version = "0.1.0"
edition = "2021"
publish = false

[dependencies]
dashmap = "*"
rayon = "*"
tokio = { version = "*", features = ["rt-multi-thread", "sync", "macros", "time"] }
num_cpus = "*"
