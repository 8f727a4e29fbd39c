[package]
name = "zk_gate_evo"
version = "0.1.0"
edition = "2021"
publish = false

[dependencies]
anyhow = "=1.0.104"
clap = { version = "4", features = ["derive"] }
plonky2 = "=0.2.2"
rand = "=0.8.8"
rand_chacha = "=0.3.1"
