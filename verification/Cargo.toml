[package]
name = "pair_counts"
version = "0.1.0"
edition = "2021"
publish = false

[dependencies]
clap = { version = "*", features = ["derive"] }
csv = "*"
noodles = { version = "*", features = ["bam", "sam"] }
