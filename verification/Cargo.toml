[package]
name = "cl_total_rdga"
version = "0.1.0"
edition = "2021"
publish = false

[dependencies]
rand = "0.8"
petgraph = "*"
rayon = "1"
chrono = "0.4"
env_logger = "0.11"
log = "0.4"
