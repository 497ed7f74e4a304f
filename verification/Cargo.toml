[package]
name = "stack_set"
version = "0.1.0"
edition = "2021"
publish = false

[dependencies]
next_prime = "*"
