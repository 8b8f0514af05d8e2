[package]
name = "n_body"
version = "0.1.0"
edition = "2021"
publish = false

[dependencies]
rand = "0.7"
crossbeam = "0.7"
nannou = "0.12"
