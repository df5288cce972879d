[package]
name = "texture_atlas"
version = "0.1.0"
edition = "2021"

[dependencies]
wgpu = "0.14"
