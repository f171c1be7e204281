[package]
name = "ariadnetor"
version = "0.1.0"
edition = "2021"
publish = false

[dependencies]
dashmap = "*"
once_cell = "*"
thiserror = "*"
num-complex = "*"
num-traits = "*"
faer = "*"
