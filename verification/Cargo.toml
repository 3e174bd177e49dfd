[package]
name = "ecs"
version = "0.1.0"
edition = "2021"
publish = false

[dependencies]
bitvec = "1"
dashmap = "6"
smallvec = "1"
nohash-hasher = "0.2"
parking_lot = "0.12"
futures = "0.3"
thiserror = "1"
tokio = { version = "1", default-features = false, features = ["rt", "rt-multi-thread", "time"] }
