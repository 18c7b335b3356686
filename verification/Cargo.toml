[package]
name = "abyssal"
version = "0.1.0"
edition = "2021"
publish = false

[dependencies]
bytemuck = { version = "=1.25.2", features = ["derive"] }
egui = "=0.30.0"
egui-wgpu = "=0.30.0"
env_logger = "=0.11.11"
image = { version = "=0.25.10", default-features = false, features = ["png", "hdr"] }
log = "=0.4.34"
nalgebra = { version = "=0.33.3", default-features = false }
nalgebra-glm = { version = "=0.19.0", features = ["convert-bytemuck"] }
pollster = "=0.4.0"
structopt = "=0.3.26"
tokio = { version = "=1.54.1", features = ["macros", "rt-multi-thread"] }
wgpu = "=23.0.1"
winit = "=0.30.13"
