[package]
name = "async-weighted-semaphore"
version = "0.1.0"
edition = "2021"
publish = false

[dev-dependencies]
async-std = "=1.13.2"
futures = { version = "=0.3.34", features = ["thread-pool"] }
rand = "=0.7.3"
rand_xorshift = "=0.2.0"
