[package]
name = "guff_sharefiles"
version = "0.1.0"
edition = "2021"
publish = false

[dependencies]
guff = "*"
guff-matrix = "*"
guff-ida = "*"
clap = "*"
