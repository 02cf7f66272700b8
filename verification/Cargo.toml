[package]
name = "truthmill"
version = "0.1.0"
edition = "2021"
publish = false

[dependencies]
num-rational = "=0.4.2"
num-bigint = "=0.4.8"
