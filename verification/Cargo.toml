[package]
name = "turbine_sim"
version = "0.1.0"
edition = "2021"
publish = false

[dependencies]
clap = "2"
rand = "0.8"
rand_chacha = "0.3"
statistical = "1.0"
