[package]
name = "aoc2023"
version = "0.1.0"
edition = "2021"
publish = false

[dependencies]
itertools = "*"
linked-hash-map = "0.5"
num-integer = "0.1"
petgraph = "*"
regex = "1"
rustworkx-core = "*"
