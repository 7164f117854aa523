[package]
name = "statistical_pb_chance"
version = "0.1.0"
edition = "2021"

[dependencies]
rustfft = "6"
num-complex = "0.4"
