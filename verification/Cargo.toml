[package]
name = "rust_algorithms"
version = "0.1.0"
edition = "2021"
publish = false

[dependencies]
rayon = "*"
tokio = { version = "*", features = ["net", "rt-multi-thread", "macros"] }
hyper = { version = "*", features = ["server", "http1"] }
hyper-util = { version = "*", features = ["tokio"] }
http-body-util = "*"
url = "*"
generic-array = "*"
numeric-array = "*"
num-traits = "*"
