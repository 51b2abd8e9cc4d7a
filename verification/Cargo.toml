[package]
name = "grapl"
version = "0.1.0"
edition = "2021"
publish = false

[dependencies]
rustyline = "*"
microxdg = "*"
petgraph = "*"

[dev-dependencies]
rand = "*"
