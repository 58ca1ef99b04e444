[package]
name = "oscq_rs"
version = "0.1.0"
edition = "2021"
publish = false

[dependencies]
rosc = "=0.11.4"
serde_json = "=1.0.151"
hyper = { version = "=1.12.0", features = ["server", "http1"] }
hyper-util = { version = "=0.1.21", features = ["tokio"] }
http-body-util = "0.1"
tokio = { version = "=1.53.2", features = ["net", "rt-multi-thread", "time", "macros"] }
