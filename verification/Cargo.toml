[package]
name = "simcore"
version = "0.1.0"
edition = "2021"
publish = false

[dependencies]
legion = "*"
rayon = "*"
num_cpus = "*"
half = "*"
noise = "*"
image = "*"
num = "*"
pathfinding = "*"
