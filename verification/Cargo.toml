[package]
name = "rgclass"
version = "0.1.0"
edition = "2021"
publish = false

[dependencies]
clap = "4"
env_logger = "0.11"
log = "0.4"
ndarray = "0.15"
ndarray-linalg = "0.16"
linfa = "0.7"
linfa-trees = "0.7"

[dev-dependencies]
nalgebra = "0.33"
