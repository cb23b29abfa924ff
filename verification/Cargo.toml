[package]
name = "rs_1brc"
version = "0.1.0"
edition = "2021"
publish = false

[dependencies]
anyhow = "1"
clap = { version = "4", features = ["derive"] }
fork = "*"
indicatif = "*"
libc = "0.2"
proc-cpuinfo = "*"
rapidhash = "*"
rayon = "1"
