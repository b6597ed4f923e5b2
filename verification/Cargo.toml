[package]
name = "relaxed_ik_lib"
version = "0.1.0"
edition = "2021"
publish = false

[dependencies]
k = "=0.32.0"
nalgebra = "=0.30.1"
optimization_engine = "=0.12.0"
urdf-rs = "=0.9.1"
yaml-rust = "=0.4.5"
