[package]
name = "e9571_str_lib"
version = "0.1.0"
edition = "2021"
publish = false

[dependencies]
e9571_lib1 = "*"
num-bigint = "0.4"
num-traits = "0.2"
sha3 = "0.10"
