[package]
name = "ctydat"
version = "0.1.0"
edition = "2021"
publish = false

[dependencies]
patricia_tree = "*"
