[package]
name = "yacrd"
version = "0.1.0"
edition = "2021"
publish = false

[dependencies]
anyhow = "*"
bzip2 = "*"
flate2 = "*"
log = "*"
noodles = { version = "*", features = ["fasta", "fastq"] }
xz2 = "*"
