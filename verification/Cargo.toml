[package]
name = "liemermaid"
version = "0.1.0"
edition = "2021"
publish = false

[dependencies]
petgraph = "*"
lievisual = "*"
vello_cpu = "*"
