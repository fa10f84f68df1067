[package]
name = "kvs"
version = "0.1.0"
edition = "2021"
publish = false

[dependencies]
anyhow = "1"
bytes = "1"
clap = { version = "4", features = ["derive"] }
crossbeam = "0.8"
log = "0.4"
rayon = "1"
sled = "0.34"
tokio = { version = "1", features = ["io-util", "macros", "net", "rt-multi-thread"] }

[dev-dependencies]
bson = "2"
