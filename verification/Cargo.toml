[package]
name = "render_2d"
version = "0.1.0"
edition = "2021"
publish = false

[dependencies]
lodepng = "3"
gl = "0.14"
winit = "0.24"
raw-gl-context = "0.1"
