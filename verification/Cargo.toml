[package]
name = "verilog-format"
version = "0.1.0"
edition = "2021"
publish = false

[dependencies]
clap = "=4.6.7"

[dev-dependencies]
nom = "7"
regex = "=1.13.1"
