[package]
name = "tilematch"
version = "0.1.0"
edition = "2021"
publish = false

[dependencies]
image = "0.25"
wgpu = "=0.20.1"
pollster = "0.3"
rayon = "1"
crossbeam-channel = "0.5"
walkdir = "2"
oklab = "*"
bytemuck = "1"
