[package]
name = "constraint_solver"
version = "0.3.0"
edition = "2021"
publish = false

[dependencies]
rayon = "1"
