[package]
name = "gfa_graphs"
version = "0.1.0"
edition = "2021"
publish = false

[dependencies]
argh = "*"
indicatif = "*"
