[package]
name = "charge_matcher"
version = "0.1.0"
edition = "2021"
publish = false

[dependencies]
color-eyre = "0.6"
itertools = "0.14"
num = "0.4"
regex = "1"
