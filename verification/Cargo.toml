[package]
name = "rustsoko"
version = "0.1.0"
edition = "2021"
publish = false

[dependencies]
bit-vec = "0.6"
priority-queue = "1"
rand = "0.7"
clap = "2"
pprof = { version = "*", features = ["flamegraph"] }
