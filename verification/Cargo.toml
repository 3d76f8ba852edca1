[package]
name = "peakrdl_rust"
version = "0.2.2"
edition = "2021"
publish = false

[dependencies]
num-traits = "0.2"
thiserror = "2"
