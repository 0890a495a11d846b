[package]
name = "flexinput_btle"
version = "0.1.0"
edition = "2021"
publish = false

[dependencies]
env_logger = "0.11"
glam = "0.29"
log = "0.4"
rusb = "0.9"
wgpu = { version = "27", default-features = false, features = ["vulkan", "gles", "dx12"] }
eframe = { version = "0.33", default-features = false, features = ["wgpu", "x11", "default_fonts"] }
