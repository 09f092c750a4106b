[package]
name = "alethe_checker"
version = "0.1.0"
edition = "2021"
publish = false

[dependencies]
num-integer = "0.1"
log = "0.4"
