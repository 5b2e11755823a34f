[package]
name = "rmmodify"
version = "0.1.0"
edition = "2021"
publish = false

[dependencies]
encoding_rs = "0.8"
num-bigint = "0.4"
