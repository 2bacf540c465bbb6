[package]
name = "bms_rs"
version = "0.1.0"
edition = "2021"
publish = false

[dependencies]
itertools = "*"
strict-num-extended = "*"
gametime = "*"
