[package]
name = "garbo_engine"
version = "0.1.0"
edition = "2021"
publish = false

[dependencies]
rand = "0.9"
anyhow = "1"
log = "0.4"
pretty_env_logger = "0.5"
bytemuck = { version = "1", features = ["derive"] }
cgmath = "0.18"
glam = "*"
winit = "0.30"
egui = "*"
egui-winit = "*"
vulkanalia = { version = "*", features = ["libloading", "window"] }
sysinfo = "*"
tobj = "*"
