[package]
name = "graph_metrics"
version = "0.1.0"
edition = "2021"
publish = false

[dependencies]
flate2 = "1"
petgraph = "0.6"
rand = "0.8"
