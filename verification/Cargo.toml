[package]
name = "field_tracker"
version = "0.1.0"
edition = "2021"
publish = false

[dependencies]
ark-ff = "0.5"
ark-serialize = "0.5"
num-bigint = "0.4"
num-format = "0.4"
rand = "0.8"
treeline = "0.1"
zeroize = "1"
