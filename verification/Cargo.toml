[package]
name = "grevm"
version = "0.1.0"
edition = "2021"
publish = false

[dependencies]
dashmap = "6"
smallvec = "1"
revm-primitives = { version = "15", default-features = false, features = ["std"] }
tokio = { version = "1", features = ["rt-multi-thread"] }
futures = "0.3"
lazy_static = "1"
