[package]
name = "ff_12381"
version = "0.1.0"
edition = "2021"
publish = false

[dependencies]
criterion = { version = "0.5", default-features = false, features = ["cargo_bench_support"] }
num-bigint = "0.4"
num-traits = "0.2"

[dev-dependencies]
rand = "0.8"
