[package]
name = "klee_analysis"
version = "0.1.0"
edition = "2021"
publish = false

[dependencies]
llvm-plugin = "*"
petgraph = "*"
