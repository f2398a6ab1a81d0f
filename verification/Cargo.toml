[package]
name = "graph_coloring"
version = "0.1.0"
edition = "2021"
publish = false

[dependencies]
rand = "0.8"
dot = "0.1"
