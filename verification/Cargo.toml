[package]
name = "happiness_graph"
version = "0.1.0"
edition = "2021"
publish = false

[dependencies]
csv = "*"
fixedbitset = "*"
petgraph = "*"
rustworkx-core = "*"
