[package]
name = "gpu_compute"
version = "0.1.0"
edition = "2021"
publish = false

[dependencies]
wgpu = "0.12"
pollster = "0.2"
env_logger = "0.9"
bytemuck = "1"
