[package]
name = "styx"
version = "0.1.0"
edition = "2021"
publish = false

[dependencies]
petgraph = "*"
kanal = "*"
syn = { version = "2", features = ["full"] }
quote = "1"
proc-macro2 = "1"
