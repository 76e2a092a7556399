[package]
name = "eqmap_netlist"
version = "0.1.0"
edition = "2021"
publish = false

[dependencies]
bitvec = "=1.1.1"
clap = { version = "=4.6.7", features = ["derive"] }
egg = "=0.11.0"
nl-compiler = "=0.1.8"
safety-net = "=0.3.9"
sv-parser = "=0.13.5"
