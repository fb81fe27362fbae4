[package]
name = "include_preprocessor"
version = "0.1.0"
edition = "2021"
publish = false

[dependencies]
num_cpus = "*"
threadpool = "*"
