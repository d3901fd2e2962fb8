[package]
name = "slam_rs"
version = "0.1.0"
edition = "2021"
publish = false

[dependencies]
nalgebra = "=0.35.0"
argmin = "=0.11.0"
argmin-math = "=0.5.1"
yaml-rust2 = "=0.13.0"
csv = "=1.4.0"
