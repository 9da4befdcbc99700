[package]
name = "ironcat"
version = "1.0.0"
edition = "2021"
publish = false

[dependencies]
clap = "2"
rand = "0.8"
rayon = "1"
