[package]
name = "fasta_util"
version = "0.1.0"
edition = "2021"
publish = false

[dependencies]
memmap2 = "*"
clap = { version = "*", features = ["derive"] }
crossbeam = "*"
