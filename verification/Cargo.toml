[package]
name = "cassette_reannotation"
version = "0.1.0"
edition = "2021"
publish = false

[dependencies]
anyhow = "1"
duct = "0.13"
futures = "0.1"
futures-cpupool = "0.1"
num_cpus = "1"
rust-htslib = "*"
structopt = "0.3"
