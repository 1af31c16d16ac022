[package]
name = "pathtracer"
version = "0.1.0"
edition = "2021"
publish = false

[dependencies]
anyhow = "1"
glam = "0.30"
rand = "0.9"
softbuffer = "0.4"
winit = "0.30"
