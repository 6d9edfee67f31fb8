[package]
name = "convex_hull"
version = "0.1.0"
edition = "2021"
publish = false

[dependencies]
cgmath = "0.18"
rand = "0.8"
rand_distr = "0.4"
svg = "*"
