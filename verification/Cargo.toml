[package]
name = "dpll"
version = "0.1.0"
edition = "2021"
publish = false

[dependencies]
stackvector = "=2.0.0"
crossbeam-channel = "=0.5.17"
crossbeam-deque = "=0.8.8"
crossbeam-utils = "=0.8.23"
clap = { version = "*", features = ["derive"] }
comfy-table = "*"
env_logger = "*"
indicatif = "0.18"
indicatif-log-bridge = "*"
log = "*"
memmap2 = "*"

[dev-dependencies]
fastrand = "=2.5.0"
