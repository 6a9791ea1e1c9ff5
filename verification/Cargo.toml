[package]
name = "ivf_fraud"
version = "0.1.0"
edition = "2021"
publish = false

[dependencies]
aligned-vec = "*"
serde = { version = "*", features = ["derive"] }
serde_json = "*"
rayon = "*"
flate2 = "*"
libc = "*"
bytes = "*"
hyper = { version = "*", features = ["server", "http1"] }
hyper-util = { version = "*", features = ["tokio"] }
http-body-util = "*"
tokio = { version = "*", features = ["rt-multi-thread", "macros", "net"] }
mimalloc = "*"
clap = { version = "*", features = ["derive"] }
