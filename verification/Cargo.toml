[package]
name = "amhs_probe"
version = "0.1.0"
edition = "2021"
publish = false

[dependencies]
anyhow = "1"
chrono = "0.4"
clap = { version = "4", features = ["derive"] }
colored = "2"
comfy-table = "7"
crossbeam-channel = "0.5"
env_logger = "0.11"
indicatif = "0.17"
log = "0.4"
num_cpus = "1"
petgraph = "0.6"
quick-xml = "*"
regex = "1"
serde = { version = "1", features = ["derive"] }
serde_json = "1"
