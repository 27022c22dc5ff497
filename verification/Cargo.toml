[package]
name = "kmer_count"
version = "0.1.0"
edition = "2021"
publish = false

[dependencies]
anyhow = "1"
clap = { version = "4", features = ["derive"] }
kseq = "*"
rayon = "1"
