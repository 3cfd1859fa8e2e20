[package]
name = "cynic_querygen"
version = "0.1.0"
edition = "2021"
publish = false

[dependencies]
thiserror = "*"
itertools = "*"
petgraph = "*"
