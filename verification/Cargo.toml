[package]
name = "kalman_filter"
version = "0.1.0"
edition = "2021"
publish = false

[dependencies]
num-bigint = "*"
nalgebra = "*"
