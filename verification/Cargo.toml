[package]
name = "tfgen"
version = "0.1.0"
edition = "2021"
publish = false

[dependencies]
nalgebra = "*"
bytemuck = "*"
owo-colors = "*"
